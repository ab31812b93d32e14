//! Haunted wasteland: a network of nodes with a left and a right exit, and
//! ghosts that start at every node ending in `A` and walk by a repeated list
//! of turns until all stand on nodes ending in `Z` at once.
use vstd::prelude::*;
use crate::text::{chars_equal, chars_of, lines, lines_spec, rows};

verus! {

/// A turn: take the left or the right exit.
#[derive(Debug, Clone, Copy, PartialEq, Eq)]
pub enum Direction {
    Left,
    Right,
}

impl Direction {
    /// `L` is left and `R` is right; any other character is no turn.
    pub fn from_char(c: char) -> (d: Option<Direction>)
        ensures
            d == turn_of(c),
    {
        match c {
            'L' => Some(Direction::Left),
            'R' => Some(Direction::Right),
            _ => None,
        }
    }
}

/// The turn a character names.
pub open spec fn turn_of(c: char) -> Option<Direction> {
    if c == 'L' {
        Some(Direction::Left)
    } else if c == 'R' {
        Some(Direction::Right)
    } else {
        None
    }
}

/// A node of the network: for each of its two exits, the node line that
/// defines it, if one does, and whether its name ends in `Z`.
#[derive(Debug, Clone, Copy)]
pub struct Item {
    pub left: Option<usize>,
    pub right: Option<usize>,
    pub is_end: bool,
}

impl Item {
    /// The exit taken by a turn.
    pub fn go(&self, d: Direction) -> (r: Option<usize>)
        ensures
            r == (match d {
                Direction::Left => self.left,
                Direction::Right => self.right,
            }),
    {
        match d {
            Direction::Left => self.left,
            Direction::Right => self.right,
        }
    }
}

/// A character of a name: an ASCII letter or digit, or `_`.
pub open spec fn is_word(c: char) -> bool {
    ('a' <= c && c <= 'z') || ('A' <= c && c <= 'Z') || ('0' <= c && c <= '9') || c == '_'
}

fn word_char(c: char) -> (b: bool)
    ensures
        b == is_word(c),
{
    ('a' <= c && c <= 'z') || ('A' <= c && c <= 'Z') || ('0' <= c && c <= '9') || c == '_'
}

/// The length of the run of name characters of `s` from position `i`.
pub open spec fn word_len(s: Seq<char>, i: int) -> int
    decreases s.len() - i,
{
    if i < 0 || i >= s.len() || !is_word(s[i]) {
        0
    } else {
        1 + word_len(s, i + 1)
    }
}

/// `s` holds `p` from position `i` on.
pub open spec fn has_at(s: Seq<char>, p: Seq<char>, i: int) -> bool {
    0 <= i && i + p.len() <= s.len() && s.subrange(i, i + p.len()) == p
}

/// A node `AAA = (BBB, CCC)` written from position `p` of `s` (anything may
/// follow it): the node's name and the names of its left and right exits,
/// each a run of name characters as long as it goes, and none empty.
pub open spec fn node_at(s: Seq<char>, p: int) -> Option<(Seq<char>, Seq<char>, Seq<char>)> {
    let a = word_len(s, p);
    let b0 = p + a + 4;
    let b = word_len(s, b0);
    let c0 = b0 + b + 2;
    let c = word_len(s, c0);
    if 0 <= p && a > 0 && has_at(s, seq![' ', '=', ' ', '('], p + a) && b > 0 && has_at(s, seq![',', ' '], b0 + b)
        && c > 0 && has_at(s, seq![')'], c0 + c) {
        Some((s.subrange(p, p + a), s.subrange(b0, b0 + b), s.subrange(c0, c0 + c)))
    } else {
        None
    }
}

/// The first node written at or after position `p` of `s`.
pub open spec fn node_from(s: Seq<char>, p: int) -> Option<(Seq<char>, Seq<char>, Seq<char>)>
    decreases s.len() + 1 - p,
{
    if p < 0 || p > s.len() {
        None
    } else {
        match node_at(s, p) {
            Some(t) => Some(t),
            None => node_from(s, p + 1),
        }
    }
}

/// A node line: the first node `AAA = (BBB, CCC)` written anywhere in it.
pub open spec fn node_spec(s: Seq<char>) -> Option<(Seq<char>, Seq<char>, Seq<char>)> {
    node_from(s, 0)
}

proof fn lemma_word_len(s: Seq<char>, i: int)
    requires
        0 <= i,
    ensures
        0 <= word_len(s, i),
        i + word_len(s, i) <= s.len() || word_len(s, i) == 0,
        forall|k: int| i <= k < i + word_len(s, i) ==> is_word(#[trigger] s[k]),
        i + word_len(s, i) < s.len() ==> !is_word(s[i + word_len(s, i)]),
    decreases s.len() - i,
{
    if i < s.len() && is_word(s[i]) {
        lemma_word_len(s, i + 1);
    }
}

/// The length of the run of name characters of `s` from `i`.
fn run_len(s: &[char], i: usize) -> (n: usize)
    requires
        i <= s@.len(),
    ensures
        n == word_len(s@, i as int),
        i + n <= s@.len(),
{
    let mut j: usize = i;
    while j < s.len() && word_char(s[j])
        invariant
            i <= j <= s@.len(),
            word_len(s@, i as int) == (j - i) + word_len(s@, j as int),
        decreases s@.len() - j,
    {
        j = j + 1;
    }
    j - i
}

fn has_at_exec(s: &[char], p: &[char], i: usize) -> (b: bool)
    ensures
        b == has_at(s@, p@, i as int),
{
    if i > s.len() || s.len() - i < p.len() {
        return false;
    }
    let n = s.len();
    let mut k: usize = 0;
    while k < p.len()
        invariant
            k <= p@.len(),
            n == s@.len(),
            i + p@.len() <= s@.len(),
            forall|t: int| 0 <= t < k ==> s@[i + t] == p@[t],
        decreases p@.len() - k,
    {
        if s[i + k] != p[k] {
            assert(s@.subrange(i as int, i + p@.len())[k as int] != p@[k as int]);
            return false;
        }
        k = k + 1;
    }
    assert(s@.subrange(i as int, i + p@.len()) =~= p@);
    true
}

fn sub_chars(s: &[char], from: usize, to: usize) -> (r: Vec<char>)
    requires
        from <= to <= s@.len(),
    ensures
        r@ == s@.subrange(from as int, to as int),
{
    let mut r: Vec<char> = Vec::new();
    let mut k: usize = from;
    while k < to
        invariant
            from <= k <= to <= s@.len(),
            r@ == s@.subrange(from as int, k as int),
        decreases to - k,
    {
        r.push(s[k]);
        k = k + 1;
    }
    r
}

fn parse_node_at(s: &[char], p: usize) -> (r: Option<(Vec<char>, Vec<char>, Vec<char>)>)
    requires
        p <= s@.len(),
    ensures
        match r {
            Some(t) => node_at(s@, p as int) == Some((t.0@, t.1@, t.2@)),
            None => node_at(s@, p as int) is None,
        },
{
    let _n = s.len();
    let a = run_len(s, p);
    if a == 0 || !has_at_exec(s, &[' ', '=', ' ', '('], p + a) {
        proof {
            assert(seq![' ', '=', ' ', '('] =~= [' ', '=', ' ', '(']@);
        }
        return None;
    }
    proof {
        assert(seq![' ', '=', ' ', '('] =~= [' ', '=', ' ', '(']@);
    }
    let b0 = p + a + 4;
    let b = run_len(s, b0);
    if b == 0 || !has_at_exec(s, &[',', ' '], b0 + b) {
        proof {
            assert(seq![',', ' '] =~= [',', ' ']@);
        }
        return None;
    }
    proof {
        assert(seq![',', ' '] =~= [',', ' ']@);
    }
    let c0 = b0 + b + 2;
    let c = run_len(s, c0);
    if c == 0 || !has_at_exec(s, &[')'], c0 + c) {
        proof {
            assert(seq![')'] =~= [')']@);
        }
        return None;
    }
    proof {
        assert(seq![')'] =~= [')']@);
    }
    Some((sub_chars(s, p, p + a), sub_chars(s, b0, b0 + b), sub_chars(s, c0, c0 + c)))
}

/// Reads a node line (see `node_spec`).
pub fn parse_node(s: &[char]) -> (r: Option<(Vec<char>, Vec<char>, Vec<char>)>)
    ensures
        match r {
            Some(t) => node_spec(s@) == Some((t.0@, t.1@, t.2@)),
            None => node_spec(s@) is None,
        },
{
    let n = s.len();
    let mut p: usize = 0;
    while p < n
        invariant
            p <= n,
            n == s@.len(),
            node_from(s@, 0) == node_from(s@, p as int),
        decreases n - p,
    {
        match parse_node_at(s, p) {
            Some(t) => {
                return Some(t);
            },
            None => {},
        }
        p = p + 1;
    }
    let r = parse_node_at(s, n);
    proof {
        assert(node_from(s@, n + 1) is None);
    }
    r
}

/// The position of the last of the first `k` nodes named `name`.
pub open spec fn last_def(nodes: Seq<(Seq<char>, Seq<char>, Seq<char>)>, name: Seq<char>, k: int) -> Option<int>
    decreases k,
{
    if k <= 0 {
        None
    } else if nodes[k - 1].0 == name {
        Some(k - 1)
    } else {
        last_def(nodes, name, k - 1)
    }
}

/// The node a name stands for: the last line that names it.
pub open spec fn def_of(nodes: Seq<(Seq<char>, Seq<char>, Seq<char>)>, name: Seq<char>) -> Option<int> {
    last_def(nodes, name, nodes.len() as int)
}

/// The names, in order, of the first `k` nodes whose names end in `A`.
pub open spec fn starts(nodes: Seq<(Seq<char>, Seq<char>, Seq<char>)>, k: int) -> Seq<Seq<char>>
    decreases k,
{
    if k <= 0 {
        Seq::empty()
    } else if nodes[k - 1].0.last() == 'A' {
        starts(nodes, k - 1).push(nodes[k - 1].0)
    } else {
        starts(nodes, k - 1)
    }
}

/// The exit of the node named `name` that a turn takes.
pub open spec fn next_of(nodes: Seq<(Seq<char>, Seq<char>, Seq<char>)>, name: Seq<char>, d: Direction) -> Seq<char> {
    let j = def_of(nodes, name)->0;
    match d {
        Direction::Left => nodes[j].1,
        Direction::Right => nodes[j].2,
    }
}

/// Where the ghosts stand after `t` turns, the turns repeating.
pub open spec fn positions(
    nodes: Seq<(Seq<char>, Seq<char>, Seq<char>)>,
    dirs: Seq<Direction>,
    t: int,
) -> Seq<Seq<char>>
    decreases t,
{
    if t <= 0 {
        starts(nodes, nodes.len() as int)
    } else {
        positions(nodes, dirs, t - 1).map_values(|n: Seq<char>| next_of(nodes, n, dirs[(t - 1) % dirs.len() as int]))
    }
}

/// Every name stands for a node.
pub open spec fn all_defined(nodes: Seq<(Seq<char>, Seq<char>, Seq<char>)>, ps: Seq<Seq<char>>) -> bool {
    forall|i: int| 0 <= i < ps.len() ==> (#[trigger] def_of(nodes, ps[i])) is Some
}

/// Every name ends in `Z`.
pub open spec fn all_end(ps: Seq<Seq<char>>) -> bool {
    forall|i: int| 0 <= i < ps.len() ==> (#[trigger] ps[i]).len() > 0 && ps[i].last() == 'Z'
}

/// After `n` turns, and not before, all ghosts stand on nodes ending in
/// `Z`; every node they stood on until then exists.
pub open spec fn ends_first_at(nodes: Seq<(Seq<char>, Seq<char>, Seq<char>)>, dirs: Seq<Direction>, n: int) -> bool {
    &&& dirs.len() > 0
    &&& forall|t: int| 0 <= t <= n ==> all_defined(nodes, #[trigger] positions(nodes, dirs, t))
    &&& all_end(positions(nodes, dirs, n))
    &&& forall|t: int| 0 <= t < n ==> !all_end(#[trigger] positions(nodes, dirs, t))
}

/// The turns of the first line, if every character is `L` or `R`.
pub open spec fn turns_spec(s: Seq<char>) -> Option<Seq<Direction>> {
    if forall|i: int| 0 <= i < s.len() ==> (#[trigger] turn_of(s[i])) is Some {
        Some(s.map_values(|c: char| turn_of(c)->0))
    } else {
        None
    }
}

/// The nodes of the lines, if every line is a node line.
pub open spec fn nodes_spec(ls: Seq<Seq<char>>) -> Option<Seq<(Seq<char>, Seq<char>, Seq<char>)>> {
    if forall|i: int| 0 <= i < ls.len() ==> (#[trigger] node_spec(ls[i])) is Some {
        Some(ls.map_values(|l: Seq<char>| node_spec(l)->0))
    } else {
        None
    }
}

proof fn lemma_last_def(nodes: Seq<(Seq<char>, Seq<char>, Seq<char>)>, name: Seq<char>, k: int)
    requires
        0 <= k <= nodes.len(),
    ensures
        last_def(nodes, name, k) matches Some(j) ==> 0 <= j < k && nodes[j].0 == name,
        last_def(nodes, name, k) is None ==> forall|j: int| 0 <= j < k ==> nodes[j].0 != name,
    decreases k,
{
    if k > 0 && nodes[k - 1].0 != name {
        lemma_last_def(nodes, name, k - 1);
    }
}

/// The last node line among `nodes` named `name` (see `def_of`).
fn find_def(nodes: &Vec<(Vec<char>, Vec<char>, Vec<char>)>, name: &Vec<char>) -> (r: Option<usize>)
    ensures
        opt_int(r) == def_of(node_view(nodes@), name@),
        r matches Some(j) ==> j < nodes@.len(),
{
    let ghost nv = node_view(nodes@);
    proof {
        lemma_last_def(nv, name@, nv.len() as int);
    }
    let mut k: usize = nodes.len();
    while k > 0
        invariant
            k <= nodes@.len(),
            nv == node_view(nodes@),
            last_def(nv, name@, nv.len() as int) == last_def(nv, name@, k as int),
        decreases k,
    {
        assert(nv[k - 1] == (nodes@[k - 1].0@, nodes@[k - 1].1@, nodes@[k - 1].2@));
        if chars_equal(&nodes[k - 1].0, name) {
            return Some(k - 1);
        }
        k = k - 1;
    }
    None
}

/// The nodes as plain values.
pub open spec fn node_view(nodes: Seq<(Vec<char>, Vec<char>, Vec<char>)>) -> Seq<(Seq<char>, Seq<char>, Seq<char>)> {
    nodes.map_values(|t: (Vec<char>, Vec<char>, Vec<char>)| (t.0@, t.1@, t.2@))
}

/// The node line standing for each name the ghosts stand on.
pub open spec fn standing(nodes: Seq<(Seq<char>, Seq<char>, Seq<char>)>, ps: Seq<Seq<char>>) -> Seq<Option<int>> {
    ps.map_values(|n: Seq<char>| def_of(nodes, n))
}

proof fn lemma_positions_len(nodes: Seq<(Seq<char>, Seq<char>, Seq<char>)>, dirs: Seq<Direction>, t: int)
    requires
        t >= 0,
    ensures
        positions(nodes, dirs, t).len() == starts(nodes, nodes.len() as int).len(),
    decreases t,
{
    if t > 0 {
        lemma_positions_len(nodes, dirs, t - 1);
    }
}

/// The number of turns after which all ghosts first stand on nodes ending in
/// `Z`, trying at most `fuel` turns (see `ends_first_at`): the first line
/// gives the turns, the lines after the second the nodes, all of which must
/// read. `None` where a ghost reaches a name without a node, or no such
/// number is at most `fuel`.
pub fn ghost_steps(data: &str, fuel: u64) -> (r: Option<u64>)
    requires
        lines_spec(data@).len() > 0,
        turns_spec(lines_spec(data@)[0]) is Some,
        nodes_spec(node_lines(lines_spec(data@))) is Some,
    ensures
        match r {
            Some(n) => n <= fuel && lines_spec(data@).len() > 0 && turns_spec(lines_spec(data@)[0]) is Some
                && nodes_spec(node_lines(lines_spec(data@))) is Some && ends_first_at(
                nodes_spec(node_lines(lines_spec(data@)))->0,
                turns_spec(lines_spec(data@)[0])->0,
                n as int,
            ),
            None => lines_spec(data@).len() == 0 || turns_spec(lines_spec(data@)[0]) is None || nodes_spec(
                node_lines(lines_spec(data@)),
            ) is None || forall|n: int| 0 <= n <= fuel ==> !ends_first_at(
                nodes_spec(node_lines(lines_spec(data@)))->0,
                turns_spec(lines_spec(data@)[0])->0,
                n,
            ),
        },
{
    let chars = chars_of(data);
    let ls = lines(chars.as_slice());
    let ghost lv = rows(ls@);
    if ls.len() == 0 {
        return None;
    }
    let dirs = match read_turns(&ls[0]) {
        Some(d) => d,
        None => {
            return None;
        },
    };
    let parsed = match read_nodes(&ls) {
        Some(p) => p,
        None => {
            return None;
        },
    };
    proof {
        let nodes = node_view(parsed@);
        let nl = node_lines(lv);
        assert(nl.map_values(|l: Seq<char>| node_spec(l)->0) == nodes);
        assert forall|j: int| 0 <= j < parsed@.len() implies (#[trigger] parsed@[j]).0@.len() > 0 by {
            assert(nodes.len() == nl.len());
            assert(node_spec(nl[j]) is Some);
            assert(nodes[j] == node_spec(nl[j])->0);
            lemma_node_name(nl[j]);
        }
    }
    walk(&parsed, &dirs, fuel)
}

/// The turns of a line (see `turns_spec`).
fn read_turns(first: &Vec<char>) -> (r: Option<Vec<Direction>>)
    ensures
        match r {
            Some(d) => turns_spec(first@) == Some(d@),
            None => turns_spec(first@) is None,
        },
{
    let mut dirs: Vec<Direction> = Vec::new();
    let mut x: usize = 0;
    while x < first.len()
        invariant
            x <= first@.len(),
            dirs@ == first@.take(x as int).map_values(|c: char| turn_of(c)->0),
            forall|i: int| 0 <= i < x ==> (#[trigger] turn_of(first@[i])) is Some,
        decreases first@.len() - x,
    {
        match Direction::from_char(first[x]) {
            Some(d) => {
                dirs.push(d);
                assert(first@.take(x + 1).map_values(|c: char| turn_of(c)->0) =~= first@.take(x as int).map_values(
                    |c: char| turn_of(c)->0,
                ).push(d));
            },
            None => {
                return None;
            },
        }
        x = x + 1;
    }
    assert(first@.take(x as int) =~= first@);
    Some(dirs)
}

/// The nodes of the lines after the second (see `nodes_spec`).
fn read_nodes(ls: &Vec<Vec<char>>) -> (r: Option<Vec<(Vec<char>, Vec<char>, Vec<char>)>>)
    ensures
        match r {
            Some(p) => nodes_spec(node_lines(rows(ls@))) == Some(node_view(p@)),
            None => nodes_spec(node_lines(rows(ls@))) is None,
        },
{
    let ghost lv = rows(ls@);
    let ghost nl = node_lines(lv);
    let mut parsed: Vec<(Vec<char>, Vec<char>, Vec<char>)> = Vec::new();
    if ls.len() < 2 {
        assert(nodes_spec(nl) =~= Some(node_view(parsed@)));
        return Some(parsed);
    }
    let mut y: usize = 2;
    while y < ls.len()
        invariant
            2 <= y <= ls@.len(),
            lv == rows(ls@),
            nl == lv.skip(2),
            parsed@.len() == y - 2,
            forall|i: int| 0 <= i < y - 2 ==> node_spec(nl[i]) == Some(#[trigger] node_view(parsed@)[i]),
        decreases ls@.len() - y,
    {
        assert(nl[y - 2] == ls@[y as int]@);
        match parse_node(ls[y].as_slice()) {
            Some(t) => {
                let ghost old_p = parsed@;
                parsed.push(t);
                assert forall|i: int| 0 <= i < y - 1 implies node_spec(nl[i]) == Some(#[trigger] node_view(parsed@)[i]) by {
                    if i < y - 2 {
                        assert(node_view(parsed@)[i] == node_view(old_p)[i]);
                    }
                }
            },
            None => {
                return None;
            },
        }
        y = y + 1;
    }
    assert forall|i: int| 0 <= i < nl.len() implies (#[trigger] node_spec(nl[i])) is Some by {
        assert(node_spec(nl[i]) == Some(node_view(parsed@)[i]));
    }
    assert(nl.map_values(|l: Seq<char>| node_spec(l)->0) =~= node_view(parsed@));
    Some(parsed)
}

/// The lines that name nodes: all after the second.
pub open spec fn node_lines(ls: Seq<Seq<char>>) -> Seq<Seq<char>> {
    if ls.len() >= 2 {
        ls.skip(2)
    } else {
        Seq::empty()
    }
}

/// A line index as an integer.
pub open spec fn opt_int(o: Option<usize>) -> Option<int> {
    match o {
        Some(j) => Some(j as int),
        None => None,
    }
}

/// The line of each node's exits, and whether its name ends in `Z`.
pub open spec fn items_ok(nodes: Seq<(Seq<char>, Seq<char>, Seq<char>)>, items: Seq<Item>) -> bool {
    &&& items.len() == nodes.len()
    &&& forall|j: int|
        0 <= j < nodes.len() ==> {
            &&& opt_int((#[trigger] items[j]).left) == def_of(nodes, nodes[j].1)
            &&& opt_int(items[j].right) == def_of(nodes, nodes[j].2)
            &&& items[j].is_end == (nodes[j].0.last() == 'Z')
        }
}

/// The nodes as `Item`s (see `items_ok`).
fn build_items(parsed: &Vec<(Vec<char>, Vec<char>, Vec<char>)>) -> (items: Vec<Item>)
    requires
        forall|j: int| 0 <= j < parsed@.len() ==> (#[trigger] parsed@[j]).0@.len() > 0,
    ensures
        items_ok(node_view(parsed@), items@),
{
    let ghost nodes = node_view(parsed@);
    let mut items: Vec<Item> = Vec::new();
    let mut j: usize = 0;
    while j < parsed.len()
        invariant
            j <= parsed@.len(),
            nodes == node_view(parsed@),
            forall|j: int| 0 <= j < parsed@.len() ==> (#[trigger] parsed@[j]).0@.len() > 0,
            items@.len() == j,
            forall|i: int|
                0 <= i < j ==> {
                    &&& opt_int((#[trigger] items@[i]).left) == def_of(nodes, nodes[i].1)
                    &&& opt_int(items@[i].right) == def_of(nodes, nodes[i].2)
                    &&& items@[i].is_end == (nodes[i].0.last() == 'Z')
                },
        decreases parsed@.len() - j,
    {
        let node = &parsed[j];
        assert(nodes[j as int] == (node.0@, node.1@, node.2@));
        let left = find_def(parsed, &node.1);
        let right = find_def(parsed, &node.2);
        let n = node.0.len();
        let is_end = node.0[n - 1] == 'Z';
        items.push(Item { left, right, is_end });
        j = j + 1;
    }
    items
}

/// Walks the ghosts for at most `fuel` turns (see `ghost_steps`).
fn walk(parsed: &Vec<(Vec<char>, Vec<char>, Vec<char>)>, dirs: &Vec<Direction>, fuel: u64) -> (r: Option<u64>)
    requires
        forall|j: int| 0 <= j < parsed@.len() ==> (#[trigger] parsed@[j]).0@.len() > 0,
    ensures
        match r {
            Some(n) => n <= fuel && ends_first_at(node_view(parsed@), dirs@, n as int),
            None => forall|n: int| 0 <= n <= fuel ==> !ends_first_at(node_view(parsed@), dirs@, n),
        },
{
    let ghost nodes = node_view(parsed@);
    let ghost nn = nodes.len() as int;
    if dirs.len() == 0 {
        return None;
    }
    let items = build_items(parsed);
    // the start positions
    let mut pos: Vec<Option<usize>> = Vec::new();
    let mut j: usize = 0;
    while j < parsed.len()
        invariant
            j <= parsed@.len(),
            nodes == node_view(parsed@),
            nn == nodes.len(),
            forall|j: int| 0 <= j < parsed@.len() ==> (#[trigger] parsed@[j]).0@.len() > 0,
            pos@.map_values(|o: Option<usize>| opt_int(o)) == standing(nodes, starts(nodes, j as int)),
        decreases parsed@.len() - j,
    {
        let node = &parsed[j];
        assert(nodes[j as int] == (node.0@, node.1@, node.2@));
        let n = node.0.len();
        if node.0[n - 1] == 'A' {
            let d = find_def(parsed, &node.0);
            let ghost old_pos = pos@;
            pos.push(d);
            assert(pos@.map_values(|o: Option<usize>| opt_int(o)) =~= old_pos.map_values(|o: Option<usize>| opt_int(o)).push(opt_int(d)));
            assert(standing(nodes, starts(nodes, j + 1)) =~= standing(nodes, starts(nodes, j as int)).push(def_of(nodes, nodes[j as int].0)));
        }
        j = j + 1;
    }
    let ghost dv = dirs@;
    let nd = dirs.len();
    let mut t: u64 = 0;
    let mut di: usize = 0;
    loop
        invariant
            nodes == node_view(parsed@),
            nn == nodes.len(),
            dv == dirs@,
            nd == dv.len(),
            nd > 0,
            di == (t as int) % (nd as int),
            t <= fuel,
            forall|j: int| 0 <= j < parsed@.len() ==> (#[trigger] parsed@[j]).0@.len() > 0,
            items_ok(nodes, items@),
            pos@.map_values(|o: Option<usize>| opt_int(o)) == standing(nodes, positions(nodes, dv, t as int)),
            forall|u: int| 0 <= u < t ==> all_defined(nodes, #[trigger] positions(nodes, dv, u)),
            forall|u: int| 0 <= u < t ==> !all_end(#[trigger] positions(nodes, dv, u)),
        decreases fuel - t,
    {
        let ghost ps = positions(nodes, dv, t as int);
        proof {
            lemma_positions_len(nodes, dv, t as int);
        }
        assert(pos@.map_values(|o: Option<usize>| opt_int(o)).len() == pos@.len());
        assert(pos@.len() == ps.len());
        // every ghost must stand on a node
        let mut i: usize = 0;
        let mut is_end = true;
        let mut next: Vec<Option<usize>> = Vec::new();
        let dir = dirs[di];
        while i < pos.len()
            invariant
                i <= pos@.len(),
                pos@.len() == ps.len(),
                nodes == node_view(parsed@),
                nn == nodes.len(),
                items_ok(nodes, items@),
                dir == dv[(t as int) % (nd as int)],
                ps == positions(nodes, dv, t as int),
                forall|j: int| 0 <= j < parsed@.len() ==> (#[trigger] parsed@[j]).0@.len() > 0,
                dv == dirs@,
                nd == dv.len(),
                nd > 0,
                t <= fuel,
                forall|u: int| 0 <= u < t ==> !all_end(#[trigger] positions(nodes, dv, u)),
                pos@.map_values(|o: Option<usize>| opt_int(o)) == standing(nodes, ps),
                forall|k: int| 0 <= k < i ==> (#[trigger] def_of(nodes, ps[k])) is Some,
                is_end == (forall|k: int| 0 <= k < i ==> (#[trigger] ps[k]).len() > 0 && ps[k].last() == 'Z'),
                next@.len() == i,
                forall|k: int| 0 <= k < i ==> opt_int(#[trigger] next@[k]) == def_of(nodes, next_of(nodes, ps[k], dir)),
            decreases pos@.len() - i,
        {
            assert(pos@.map_values(|o: Option<usize>| opt_int(o))[i as int] == standing(nodes, ps)[i as int]);
            assert(opt_int(pos@[i as int]) == def_of(nodes, ps[i as int]));
            match pos[i] {
                Some(j) => {
                    proof {
                        lemma_last_def(nodes, ps[i as int], nn);
                    }
                    let it = items[j];
                    assert(nodes[j as int].0 == ps[i as int]);
                    assert(nodes[j as int].0 == parsed@[j as int].0@);
                    is_end = is_end && it.is_end;
                    next.push(it.go(dir));
                },
                None => {
                    proof {
                        assert(!all_defined(nodes, ps));
                        lemma_stuck(nodes, dv, t as int);
                    }
                    return None;
                },
            }
            i = i + 1;
        }
        assert(all_defined(nodes, ps));
        if is_end {
            assert(all_end(ps));
            assert(ends_first_at(nodes, dv, t as int));
            return Some(t);
        }
        assert(!all_end(ps));
        if t == fuel {
            assert forall|n: int| 0 <= n <= fuel implies !ends_first_at(nodes, dv, n) by {
                assert(!all_end(positions(nodes, dv, n)));
            }
            return None;
        }
        proof {
            assert(next@.map_values(|o: Option<usize>| opt_int(o)) =~= standing(nodes, positions(nodes, dv, t + 1)));
        }
        pos = next;
        t = t + 1;
        di = if di + 1 == nd { 0 } else { di + 1 };
        proof {
            assert(di == (t as int) % (nd as int)) by (nonlinear_arith)
                requires
                    di == (if (t - 1) % (nd as int) + 1 == nd { 0 } else { (t - 1) % (nd as int) + 1 }),
                    nd > 0,
                    t >= 1,
            ;
        }
    }
}

proof fn lemma_node_from_name(s: Seq<char>, p: int)
    ensures
        node_from(s, p) matches Some(t) ==> t.0.len() > 0,
    decreases s.len() + 1 - p,
{
    if 0 <= p <= s.len() {
        if node_at(s, p) is Some {
            lemma_word_len(s, p);
        } else {
            lemma_node_from_name(s, p + 1);
        }
    }
}

proof fn lemma_node_name(s: Seq<char>)
    ensures
        node_spec(s) matches Some(t) ==> t.0.len() > 0,
{
    lemma_node_from_name(s, 0);
}

proof fn lemma_stuck(nodes: Seq<(Seq<char>, Seq<char>, Seq<char>)>, dv: Seq<Direction>, t: int)
    requires
        0 <= t,
        !all_defined(nodes, positions(nodes, dv, t)),
        forall|u: int| 0 <= u < t ==> !all_end(#[trigger] positions(nodes, dv, u)),
    ensures
        forall|n: int| 0 <= n ==> !ends_first_at(nodes, dv, n),
{
    assert forall|n: int| 0 <= n implies !ends_first_at(nodes, dv, n) by {
        if n >= t {
            if ends_first_at(nodes, dv, n) {
                assert(all_defined(nodes, positions(nodes, dv, t)));
            }
        } else {
            assert(!all_end(positions(nodes, dv, n)));
        }
    }
}

} // verus!
