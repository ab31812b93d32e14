//! Falling sand bricks: read the bricks, order them by height, work out which
//! brick lies on which, and count the bricks that could be taken away
//! without leaving another brick unsupported.
use vstd::prelude::*;
use crate::text::{
    chars_of, fields_spec, lines, lines_spec, parse_fields, rows, split_on, split_spec, trim,
    trim_spec,
};

verus! {

broadcast use vstd::seq_lib::group_to_multiset_ensures;

/// A brick: the cells from corner `vmin` to corner `vmax`, both included.
#[derive(Debug, Clone, Copy, PartialEq, Eq, Hash)]
pub struct Brick {
    pub vmin: [i64; 3],
    pub vmax: [i64; 3],
}

/// A rectangle in the x-y plane, corners included.
#[derive(Debug, Clone, Copy, PartialEq, Eq, Hash)]
pub struct Rect {
    pub vmin: [i64; 2],
    pub vmax: [i64; 2],
}

/// The two rectangles share a point.
pub open spec fn rects_meet(a: Rect, b: Rect) -> bool {
    forall|q: int| 0 <= q < 2 ==> !(a.vmax[q] < b.vmin[q] || b.vmax[q] < a.vmin[q])
}

/// The two bricks share a cell.
pub open spec fn cubes_meet(a: Brick, b: Brick) -> bool {
    forall|q: int| 0 <= q < 3 ==> !(a.vmax[q] < b.vmin[q] || b.vmax[q] < a.vmin[q])
}

/// The brick's outline seen from above.
pub open spec fn xy_of(b: Brick) -> Rect {
    Rect { vmin: [b.vmin[0], b.vmin[1]], vmax: [b.vmax[0], b.vmax[1]] }
}

/// Whether two rectangles overlap.
pub fn rect_overlap(a: &Rect, b: &Rect) -> (r: bool)
    ensures
        r == rects_meet(*a, *b),
{
    let mut q: usize = 0;
    while q < 2
        invariant
            q <= 2,
            forall|p: int| 0 <= p < q ==> !(a.vmax[p] < b.vmin[p] || b.vmax[p] < a.vmin[p]),
        decreases 2 - q,
    {
        if (a.vmax[q] < b.vmin[q]) || (b.vmax[q] < a.vmin[q]) {
            return false;
        }
        q = q + 1;
    }
    true
}

/// Whether two bricks overlap.
pub fn cube_overlap(a: &Brick, b: &Brick) -> (r: bool)
    ensures
        r == cubes_meet(*a, *b),
{
    let mut q: usize = 0;
    while q < 3
        invariant
            q <= 3,
            forall|p: int| 0 <= p < q ==> !(a.vmax[p] < b.vmin[p] || b.vmax[p] < a.vmin[p]),
        decreases 3 - q,
    {
        if (a.vmax[q] < b.vmin[q]) || (b.vmax[q] < a.vmin[q]) {
            return false;
        }
        q = q + 1;
    }
    true
}

impl Brick {
    /// The brick's outline seen from above.
    pub fn xyrect(&self) -> (r: Rect)
        ensures
            r == xy_of(*self),
    {
        Rect { vmin: [self.vmin[0], self.vmin[1]], vmax: [self.vmax[0], self.vmax[1]] }
    }

    /// Lowers the brick by `delta`; it must stay above the ground.
    pub fn move_down(&mut self, delta: i64)
        requires
            old(self).vmin[2] - delta > 0,
            old(self).vmax[2] - delta > 0,
            old(self).vmin[2] - delta <= i64::MAX,
            old(self).vmax[2] - delta <= i64::MAX,
        ensures
            final(self).vmin[0] == old(self).vmin[0],
            final(self).vmin[1] == old(self).vmin[1],
            final(self).vmax[0] == old(self).vmax[0],
            final(self).vmax[1] == old(self).vmax[1],
            final(self).vmin[2] == old(self).vmin[2] - delta,
            final(self).vmax[2] == old(self).vmax[2] - delta,
    {
        self.vmin[2] = self.vmin[2] - delta;
        self.vmax[2] = self.vmax[2] - delta;
    }
}

/// The brick a line describes: two corners `x,y,z~x,y,z` (fields after the
/// third are read but not used), each coordinate of the first corner no
/// larger than that of the second; `None` for anything else.
pub open spec fn brick_spec(line: Seq<char>) -> Option<Brick> {
    let halves = split_spec(trim_spec(line), '~');
    if halves.len() != 2 {
        None
    } else {
        match (fields_spec(halves[0], ','), fields_spec(halves[1], ',')) {
            (Some(a), Some(b)) => if a.len() >= 3 && b.len() >= 3 && a[0] <= b[0] && a[1] <= b[1]
                && a[2] <= b[2] {
                Some(Brick { vmin: [a[0], a[1], a[2]], vmax: [b[0], b[1], b[2]] })
            } else {
                None
            },
            _ => None,
        }
    }
}

/// Reads one brick line.
pub fn parse_brick(line: &[char]) -> (res: Option<Brick>)
    ensures
        res == brick_spec(line@),
{
    let t = trim(line);
    let halves = split_on(t.as_slice(), '~');
    if halves.len() != 2 {
        return None;
    }
    assert(rows(halves@)[0] == halves@[0]@ && rows(halves@)[1] == halves@[1]@);
    let a = match parse_fields(halves[0].as_slice(), ',') {
        Some(a) => a,
        None => {
            return None;
        },
    };
    let b = match parse_fields(halves[1].as_slice(), ',') {
        Some(b) => b,
        None => {
            return None;
        },
    };
    if a.len() < 3 || b.len() < 3 {
        return None;
    }
    if a[0] > b[0] || a[1] > b[1] || a[2] > b[2] {
        return None;
    }
    let r = Brick { vmin: [a[0], a[1], a[2]], vmax: [b[0], b[1], b[2]] };
    assert(r == brick_spec(line@)->0);
    Some(r)
}

/// Every line describes a brick.
pub open spec fn bricks_readable(ls: Seq<Seq<char>>) -> bool {
    forall|k: int| 0 <= k < ls.len() ==> (#[trigger] brick_spec(ls[k])) is Some
}

/// The bricks the lines describe, in order.
pub open spec fn bricks_of(ls: Seq<Seq<char>>) -> Seq<Brick> {
    ls.map_values(|l: Seq<char>| brick_spec(l)->0)
}

/// Reads the brick list, one brick per line; `None` when a line is not a brick.
pub fn parse_bricks(data: &str) -> (res: Option<Vec<Brick>>)
    ensures
        match res {
            Some(v) => bricks_readable(lines_spec(data@)) && v@ == bricks_of(lines_spec(data@)),
            None => !bricks_readable(lines_spec(data@)),
        },
{
    let chars = chars_of(data);
    let ls = lines(chars.as_slice());
    let ghost lv = rows(ls@);
    let mut v: Vec<Brick> = Vec::new();
    let mut i: usize = 0;
    while i < ls.len()
        invariant
            i <= ls@.len(),
            lv == rows(ls@),
            lv == lines_spec(data@),
            v@.len() == i,
            forall|k: int| 0 <= k < i ==> brick_spec(lv[k]) == Some(#[trigger] v@[k]),
        decreases ls@.len() - i,
    {
        assert(lv[i as int] == ls@[i as int]@);
        match parse_brick(ls[i].as_slice()) {
            Some(b) => {
                v.push(b);
            },
            None => {
                return None;
            },
        }
        i = i + 1;
    }
    assert forall|k: int| 0 <= k < lv.len() implies (#[trigger] brick_spec(lv[k])) is Some by {
        assert(brick_spec(lv[k]) == Some(v@[k]));
    }
    assert(v@ =~= bricks_of(lv));
    Some(v)
}

/// The bricks are in order of their lower height.
pub open spec fn sorted_by_bottom(s: Seq<Brick>) -> bool {
    forall|a: int, b: int| 0 <= a <= b < s.len() ==> (#[trigger] s[a]).vmin[2] <= (#[trigger] s[b]).vmin[2]
}

/// `x` put into `s` just after the last brick, counted from the back, whose
/// lower height is not above that of `x`.
pub open spec fn insert_by_bottom(s: Seq<Brick>, x: Brick) -> Seq<Brick>
    decreases s.len(),
{
    if s.len() == 0 || s.last().vmin[2] <= x.vmin[2] {
        s.push(x)
    } else {
        insert_by_bottom(s.drop_last(), x).push(s.last())
    }
}

/// The bricks ordered by lower height, bricks at the same height in their
/// original order.
pub open spec fn sort_by_bottom_spec(s: Seq<Brick>) -> Seq<Brick>
    decreases s.len(),
{
    if s.len() == 0 {
        s
    } else {
        insert_by_bottom(sort_by_bottom_spec(s.drop_last()), s.last())
    }
}

proof fn lemma_insert_by_bottom(s: Seq<Brick>, x: Brick)
    requires
        sorted_by_bottom(s),
    ensures
        sorted_by_bottom(insert_by_bottom(s, x)),
        insert_by_bottom(s, x).to_multiset() == s.to_multiset().insert(x),
        insert_by_bottom(s, x).len() == s.len() + 1,
        forall|k: int| 0 <= k < insert_by_bottom(s, x).len() ==> (#[trigger] insert_by_bottom(s, x)[k]).vmin[2] == x.vmin[2] || exists|m: int| 0 <= m < s.len() && s[m] == insert_by_bottom(s, x)[k],
    decreases s.len(),
{
    broadcast use vstd::multiset::group_multiset_axioms;
    if s.len() == 0 || s.last().vmin[2] <= x.vmin[2] {
        assert forall|k: int| 0 <= k < s.len() + 1 implies (#[trigger] s.push(x)[k]).vmin[2] == x.vmin[2] || exists|m: int| 0 <= m < s.len() && s[m] == s.push(x)[k] by {
            if k < s.len() {
                assert(s[k] == s.push(x)[k]);
            }
        }
    } else {
        let t = s.drop_last();
        assert(sorted_by_bottom(t));
        lemma_insert_by_bottom(t, x);
        let u = insert_by_bottom(t, x);
        assert(s =~= t.push(s.last()));
        assert forall|k: int| 0 <= k < u.len() implies (#[trigger] u[k]).vmin[2] <= s.last().vmin[2] by {
            if u[k].vmin[2] != x.vmin[2] {
                let m = choose|m: int| 0 <= m < t.len() && t[m] == u[k];
                assert(s[m] == t[m]);
            }
        }
        assert forall|k: int| 0 <= k < u.len() + 1 implies (#[trigger] u.push(s.last())[k]).vmin[2] == x.vmin[2] || exists|m: int| 0 <= m < s.len() && s[m] == u.push(s.last())[k] by {
            if k == u.len() {
                assert(s[s.len() - 1] == u.push(s.last())[k]);
            } else {
                assert(u.push(s.last())[k] == u[k]);
                if u[k].vmin[2] != x.vmin[2] {
                    let m = choose|m: int| 0 <= m < t.len() && t[m] == u[k];
                    assert(s[m] == t[m]);
                }
            }
        }
        assert(sorted_by_bottom(u.push(s.last()))) by {
            assert forall|a: int, b: int| 0 <= a <= b < u.len() + 1 implies (#[trigger] u.push(s.last())[a]).vmin[2] <= (#[trigger] u.push(s.last())[b]).vmin[2] by {
                if b < u.len() {
                    assert(u.push(s.last())[a] == u[a]);
                    assert(u.push(s.last())[b] == u[b]);
                } else if a < u.len() {
                    assert(u.push(s.last())[a] == u[a]);
                }
            }
        }
    }
}

/// A stable sort yields the bricks in order of lower height, none added or lost.
pub proof fn lemma_sort_by_bottom(s: Seq<Brick>)
    ensures
        sorted_by_bottom(sort_by_bottom_spec(s)),
        sort_by_bottom_spec(s).to_multiset() == s.to_multiset(),
        sort_by_bottom_spec(s).len() == s.len(),
    decreases s.len(),
{
    broadcast use vstd::multiset::group_multiset_axioms;
    if s.len() > 0 {
        lemma_sort_by_bottom(s.drop_last());
        lemma_insert_by_bottom(sort_by_bottom_spec(s.drop_last()), s.last());
        assert(s =~= s.drop_last().push(s.last()));
    }
}

/// Orders the bricks by their lower height, bricks at the same height keeping
/// their order.
pub fn sort_by_bottom(v: &mut Vec<Brick>)
    ensures
        final(v)@ == sort_by_bottom_spec(old(v)@),
        sorted_by_bottom(final(v)@),
        final(v)@.to_multiset() == old(v)@.to_multiset(),
{
    let ghost orig = v@;
    let n = v.len();
    let mut i: usize = 0;
    while i < n
        invariant
            i <= n,
            n == v@.len(),
            orig == old(v)@,
            orig.len() == n,
            v@.take(i as int) == sort_by_bottom_spec(orig.take(i as int)),
            v@.skip(i as int) == orig.skip(i as int),
        decreases n - i,
    {
        let x = v[i];
        let ghost prefix = v@.take(i as int);
        let ghost rest = v@.skip(i + 1);
        assert(orig[i as int] == x) by {
            assert(v@.skip(i as int)[0] == x);
        }
        let mut j: usize = i;
        assert(prefix.take(i as int) =~= prefix);
        assert(prefix.subrange(i as int, i as int) =~= Seq::<Brick>::empty());
        assert(insert_by_bottom(prefix, x) =~= insert_by_bottom(prefix, x) + Seq::<Brick>::empty());
        assert(v@ =~= prefix.take(j as int) + seq![x] + prefix.subrange(j as int, i as int) + rest);
        while j > 0 && v[j - 1].vmin[2] > x.vmin[2]
            invariant
                0 <= j <= i < n,
                n == v@.len(),
                v@ == prefix.take(j as int) + seq![x] + prefix.subrange(j as int, i as int) + rest,
                insert_by_bottom(prefix, x) == insert_by_bottom(prefix.take(j as int), x) + prefix.subrange(j as int, i as int),
                prefix.len() == i,
            decreases j,
        {
            let y = v[j - 1];
            v.set(j, y);
            v.set(j - 1, x);
            proof {
                assert(y == prefix[j - 1]);
                let pj = prefix.take(j as int);
                assert(pj.drop_last() =~= prefix.take(j - 1));
                assert(pj.last() == y);
                assert(insert_by_bottom(pj, x) == insert_by_bottom(pj.drop_last(), x).push(y));
                assert(prefix.subrange(j - 1, i as int) =~= seq![y] + prefix.subrange(j as int, i as int));
                assert(insert_by_bottom(prefix, x) =~= insert_by_bottom(prefix.take(j - 1), x) + prefix.subrange(j - 1, i as int));
                assert(v@ =~= prefix.take(j - 1) + seq![x] + prefix.subrange(j - 1, i as int) + rest);
            }
            j = j - 1;
        }
        proof {
            let pj = prefix.take(j as int);
            assert(insert_by_bottom(pj, x) == pj.push(x));
            assert(orig.take(i + 1).drop_last() =~= orig.take(i as int));
            assert(orig.take(i + 1).last() == x);
            assert(v@.take(i + 1) =~= insert_by_bottom(prefix, x));
            assert(v@.skip(i + 1) =~= orig.skip(i + 1)) by {
                assert(rest =~= orig.skip(i + 1)) by {
                    assert(orig.skip(i as int).skip(1) =~= orig.skip(i + 1));
                }
            }
        }
        i = i + 1;
    }
    assert(v@.take(n as int) =~= v@);
    assert(orig.take(n as int) =~= orig);
    proof {
        lemma_sort_by_bottom(orig);
    }
}

/// The indices below `m` that satisfy `p`, in increasing order.
pub open spec fn select(m: int, p: spec_fn(int) -> bool) -> Seq<usize>
    decreases m,
{
    if m <= 0 {
        Seq::empty()
    } else {
        select(m - 1, p) + if p(m - 1) {
            seq![(m - 1) as usize]
        } else {
            Seq::empty()
        }
    }
}

/// What `select` holds: exactly the indices below `m` that satisfy `p`, in
/// strictly increasing order.
pub proof fn lemma_select(m: int, p: spec_fn(int) -> bool)
    requires
        m <= usize::MAX + 1,
    ensures
        forall|k: int| 0 <= k < select(m, p).len() ==> 0 <= #[trigger] select(m, p)[k] < m && p(select(m, p)[k] as int),
        forall|a: int, b: int| 0 <= a < b < select(m, p).len() ==> (#[trigger] select(m, p)[a]) < (#[trigger] select(m, p)[b]),
        forall|e: int| 0 <= e < m && p(e) ==> #[trigger] select(m, p).contains(e as usize),
        select(m, p).len() <= if m < 0 { 0 } else { m },
    decreases m,
{
    if m > 0 {
        lemma_select(m - 1, p);
        let prev = select(m - 1, p);
        let s = select(m, p);
        assert forall|e: int| 0 <= e < m && p(e) implies #[trigger] s.contains(e as usize) by {
            if e < m - 1 {
                assert(prev.contains(e as usize));
                let k = choose|k: int| 0 <= k < prev.len() && prev[k] == e as usize;
                assert(s[k] == prev[k]);
            } else {
                assert(s[s.len() - 1] == (m - 1) as usize);
            }
        }
        assert forall|k: int| 0 <= k < s.len() implies 0 <= #[trigger] s[k] < m && p(s[k] as int) by {
            if k < prev.len() {
                assert(s[k] == prev[k]);
            }
        }
        assert forall|a: int, b: int| 0 <= a < b < s.len() implies (#[trigger] s[a]) < (#[trigger] s[b]) by {
            if b < prev.len() {
                assert(s[a] == prev[a]);
                assert(s[b] == prev[b]);
            } else {
                assert(s[a] == prev[a]);
            }
        }
    }
}

/// Brick `j` is another brick whose top is no higher than the bottom of brick
/// `i`, and the two overlap seen from above.
pub open spec fn lies_below(bs: Seq<Brick>, i: int, j: int) -> bool {
    j != i && bs[j].vmax[2] <= bs[i].vmin[2] && rects_meet(xy_of(bs[i]), xy_of(bs[j]))
}

/// Brick `j` is another brick whose bottom is no lower than the top of brick
/// `i`, and the two overlap seen from above.
pub open spec fn lies_above(bs: Seq<Brick>, i: int, j: int) -> bool {
    j != i && bs[j].vmin[2] >= bs[i].vmax[2] && rects_meet(xy_of(bs[i]), xy_of(bs[j]))
}

/// The bricks below brick `i`, by index.
pub open spec fn below_of(bs: Seq<Brick>, i: int) -> Seq<usize> {
    select(bs.len() as int, |j: int| lies_below(bs, i, j))
}

/// The bricks above brick `i`, by index.
pub open spec fn above_of(bs: Seq<Brick>, i: int) -> Seq<usize> {
    select(bs.len() as int, |j: int| lies_above(bs, i, j))
}

/// For every brick, the bricks below it and the bricks above it.
pub fn neighbours(bricks: &Vec<Brick>) -> (res: (Vec<Vec<usize>>, Vec<Vec<usize>>))
    ensures
        res.0@.len() == bricks@.len(),
        res.1@.len() == bricks@.len(),
        forall|i: int| 0 <= i < bricks@.len() ==> (#[trigger] res.0@[i])@ == below_of(bricks@, i),
        forall|i: int| 0 <= i < bricks@.len() ==> (#[trigger] res.1@[i])@ == above_of(bricks@, i),
{
    let n = bricks.len();
    let ghost bs = bricks@;
    let mut below_all: Vec<Vec<usize>> = Vec::new();
    let mut above_all: Vec<Vec<usize>> = Vec::new();
    let mut i: usize = 0;
    while i < n
        invariant
            i <= n,
            n == bs.len(),
            bs == bricks@,
            below_all@.len() == i,
            above_all@.len() == i,
            forall|k: int| 0 <= k < i ==> (#[trigger] below_all@[k])@ == below_of(bs, k),
            forall|k: int| 0 <= k < i ==> (#[trigger] above_all@[k])@ == above_of(bs, k),
        decreases n - i,
    {
        let brick = bricks[i];
        let r = brick.xyrect();
        let mut below: Vec<usize> = Vec::new();
        let mut above: Vec<usize> = Vec::new();
        let mut j: usize = 0;
        while j < n
            invariant
                j <= n,
                i < n,
                n == bs.len(),
                bs == bricks@,
                brick == bs[i as int],
                r == xy_of(brick),
                below@ == select(j as int, |t: int| lies_below(bs, i as int, t)),
                above@ == select(j as int, |t: int| lies_above(bs, i as int, t)),
            decreases n - j,
        {
            if i != j {
                let other = bricks[j];
                let o = other.xyrect();
                let meet = rect_overlap(&r, &o);
                if other.vmax[2] <= brick.vmin[2] && meet {
                    below.push(j);
                }
                if other.vmin[2] >= brick.vmax[2] && meet {
                    above.push(j);
                }
            }
            assert(below@ =~= select(j + 1, |t: int| lies_below(bs, i as int, t)));
            assert(above@ =~= select(j + 1, |t: int| lies_above(bs, i as int, t)));
            j = j + 1;
        }
        below_all.push(below);
        above_all.push(above);
        i = i + 1;
    }
    (below_all, above_all)
}

/// The highest top among the bricks `l` (at least one).
pub open spec fn top_of(bs: Seq<Brick>, l: Seq<usize>) -> int
    decreases l.len(),
{
    if l.len() <= 1 {
        bs[l[0] as int].vmax[2] as int
    } else {
        let t = top_of(bs, l.drop_last());
        let h = bs[l.last() as int].vmax[2] as int;
        if t >= h {
            t
        } else {
            h
        }
    }
}

/// The height a brick with the bricks `l` below it comes to rest at: the
/// highest top among them, or 1 on the ground.
pub open spec fn rest_level(bs: Seq<Brick>, l: Seq<usize>) -> int {
    if l.len() == 0 {
        1
    } else {
        top_of(bs, l)
    }
}

proof fn lemma_top_below(bs: Seq<Brick>, i: int, l: Seq<usize>)
    requires
        l.len() >= 1,
        forall|k: int| 0 <= k < l.len() ==> lies_below(bs, i, #[trigger] l[k] as int),
    ensures
        top_of(bs, l) <= bs[i].vmin[2],
    decreases l.len(),
{
    if l.len() > 1 {
        assert forall|k: int| 0 <= k < l.drop_last().len() implies lies_below(bs, i, #[trigger] l.drop_last()[k] as int) by {
            assert(l.drop_last()[k] == l[k]);
        }
        lemma_top_below(bs, i, l.drop_last());
        assert(lies_below(bs, i, l[l.len() - 1] as int));
    } else {
        assert(lies_below(bs, i, l[0] as int));
    }
}

/// The height brick `i` rests at, given the bricks `l` below it.
pub fn rest_height(bricks: &Vec<Brick>, l: &Vec<usize>) -> (h: i64)
    requires
        forall|k: int| 0 <= k < l@.len() ==> #[trigger] l@[k] < bricks@.len(),
    ensures
        h == rest_level(bricks@, l@),
{
    if l.len() == 0 {
        return 1;
    }
    let mut top = bricks[l[0]].vmax[2];
    let mut k: usize = 1;
    assert(l@.take(1).len() == 1);
    assert(l@.take(1)[0] == l@[0]);
    while k < l.len()
        invariant
            1 <= k <= l@.len(),
            forall|t: int| 0 <= t < l@.len() ==> #[trigger] l@[t] < bricks@.len(),
            top == top_of(bricks@, l@.take(k as int)),
        decreases l@.len() - k,
    {
        let h = bricks[l[k]].vmax[2];
        assert(l@.take(k + 1).drop_last() =~= l@.take(k as int));
        assert(l@.take(k + 1).last() == l@[k as int]);
        if h > top {
            top = h;
        }
        k = k + 1;
    }
    assert(l@.take(k as int) =~= l@);
    top
}

/// Every brick already rests where it would fall to.
pub open spec fn settled(bs: Seq<Brick>) -> bool {
    forall|i: int| 0 <= i < bs.len() ==> rest_level(bs, #[trigger] below_of(bs, i)) == bs[i].vmin[2]
}

/// The lists `below` are those of the bricks `bs`.
pub open spec fn below_lists(bs: Seq<Brick>, below: Seq<Vec<usize>>) -> bool {
    &&& below.len() == bs.len()
    &&& forall|i: int| 0 <= i < bs.len() ==> (#[trigger] below[i])@ == below_of(bs, i)
}

/// One pass of letting every brick fall to the highest top below it (or to
/// the ground at height 1). A brick that would have to rise, or to sink to
/// the ground or below it, stops the pass with `None`. No brick ever sinks:
/// every brick below a brick has its top at or under that brick's bottom,
/// and a brick with nothing below it can only sink by lying at or under the
/// ground already. So a pass that completes moves nothing, and it
/// completes exactly when every brick already rests.
pub fn drop_pass(bricks: &mut Vec<Brick>, below: &Vec<Vec<usize>>) -> (r: Option<bool>)
    requires
        below_lists(old(bricks)@, below@),
    ensures
        final(bricks)@ == old(bricks)@,
        r == (if settled(old(bricks)@) { Some(false) } else { Option::<bool>::None }),
{
    let n = bricks.len();
    let ghost bs = bricks@;
    let mut moved = false;
    let mut i: usize = 0;
    while i < n
        invariant
            i <= n,
            n == bs.len(),
            bricks@ == bs,
            bs == old(bricks)@,
            below_lists(bs, below@),
            !moved,
            forall|k: int| 0 <= k < i ==> rest_level(bs, #[trigger] below_of(bs, k)) == bs[k].vmin[2],
        decreases n - i,
    {
        proof {
            lemma_select(n as int, |j: int| lies_below(bs, i as int, j));
        }
        assert(below@[i as int]@ == below_of(bs, i as int));
        let brick = bricks[i];
        let max_of_below = rest_height(bricks, &below[i]);
        let delta: i128 = max_of_below as i128 - brick.vmin[2] as i128;
        if delta < 0 {
            return None;
        }
        if delta != 0 {
            proof {
                if below@[i as int]@.len() > 0 {
                    lemma_top_below(bs, i as int, below@[i as int]@);
                }
            }
            if brick.vmin[2] as i128 - delta <= 0 || brick.vmax[2] as i128 - delta <= 0 {
                return None;
            }
            let mut b = brick;
            b.move_down(delta as i64);
            bricks.set(i, b);
            moved = true;
        }
        i = i + 1;
    }
    Some(moved)
}

/// Lets the bricks fall until none moves; `false` where a brick would have
/// to rise or sink to the ground or below it. As no pass moves a brick (see
/// `drop_pass`), the first pass decides.
pub fn drop_bricks(bricks: &mut Vec<Brick>, below: &Vec<Vec<usize>>) -> (r: bool)
    requires
        below_lists(old(bricks)@, below@),
    ensures
        final(bricks)@ == old(bricks)@,
        r == settled(old(bricks)@),
{
    let ghost bs = bricks@;
    loop
        invariant
            bricks@ == bs,
            bs == old(bricks)@,
            below_lists(bs, below@),
        decreases 1nat,
    {
        match drop_pass(bricks, below) {
            None => {
                return false;
            },
            Some(brick_moved) => {
                if !brick_moved {
                    return true;
                }
            },
        }
    }
}

/// The lists of a list of vectors.
pub open spec fn lists(v: Seq<Vec<usize>>) -> Seq<Seq<usize>> {
    v.map_values(|l: Vec<usize>| l@)
}

/// Every entry of every list names a node of the graph.
pub open spec fn graph_ok(g: Seq<Seq<usize>>) -> bool {
    forall|a: int, k: int| 0 <= a < g.len() && 0 <= k < g[a].len() ==> (#[trigger] g[a][k]) < g.len()
}

/// `b` is among the nodes listed for `a`.
pub open spec fn edge(g: Seq<Seq<usize>>, a: usize, b: usize) -> bool {
    (a as int) < g.len() && g[a as int].contains(b)
}

/// `p` is a walk of at least one step that leaves `from`.
pub open spec fn is_path(g: Seq<Seq<usize>>, from: usize, p: Seq<usize>) -> bool {
    &&& p.len() >= 1
    &&& edge(g, from, p[0])
    &&& forall|k: int| 0 <= k < p.len() - 1 ==> edge(g, #[trigger] p[k], p[k + 1])
}

/// `x` can be reached from `from` in one step or more.
pub open spec fn reachable(g: Seq<Seq<usize>>, from: usize, x: usize) -> bool {
    exists|p: Seq<usize>| is_path(g, from, p) && p.last() == x
}

/// How many entries are `false`.
pub open spec fn count_false(s: Seq<bool>) -> nat
    decreases s.len(),
{
    if s.len() == 0 {
        0
    } else {
        count_false(s.drop_last()) + if !s.last() {
            1nat
        } else {
            0nat
        }
    }
}

proof fn lemma_count_false_set(s: Seq<bool>, k: int)
    requires
        0 <= k < s.len(),
        !s[k],
    ensures
        count_false(s.update(k, true)) + 1 == count_false(s),
    decreases s.len(),
{
    let u = s.update(k, true);
    if k < s.len() - 1 {
        assert(u.drop_last() =~= s.drop_last().update(k, true));
        lemma_count_false_set(s.drop_last(), k);
    } else {
        assert(u.drop_last() =~= s.drop_last());
    }
}

proof fn lemma_path_extend(g: Seq<Seq<usize>>, from: usize, p: Seq<usize>, y: usize)
    requires
        is_path(g, from, p),
        edge(g, p.last(), y),
    ensures
        is_path(g, from, p.push(y)),
        p.push(y).last() == y,
{
    let q = p.push(y);
    assert(q[0] == p[0]);
    assert forall|k: int| 0 <= k < q.len() - 1 implies edge(g, #[trigger] q[k], q[k + 1]) by {
        if k < p.len() - 1 {
            assert(q[k] == p[k] && q[k + 1] == p[k + 1]);
        } else {
            assert(q[k] == p.last());
        }
    }
}

proof fn lemma_path_marked(g: Seq<Seq<usize>>, from: usize, p: Seq<usize>, marks: Seq<bool>)
    requires
        is_path(g, from, p),
        marks.len() == g.len(),
        graph_ok(g),
        forall|k: int| 0 <= k < g[from as int].len() ==> marks[#[trigger] g[from as int][k] as int],
        forall|a: int, k: int| 0 <= a < g.len() && marks[a] && 0 <= k < g[a].len() ==> marks[#[trigger] g[a][k] as int],
    ensures
        (p.last() as int) < g.len(),
        marks[p.last() as int],
    decreases p.len(),
{
    if p.len() == 1 {
        let k = choose|k: int| 0 <= k < g[from as int].len() && g[from as int][k] == p[0];
        assert(marks[g[from as int][k] as int]);
    } else {
        let q = p.drop_last();
        assert forall|k: int| 0 <= k < q.len() - 1 implies edge(g, #[trigger] q[k], q[k + 1]) by {
            assert(q[k] == p[k] && q[k + 1] == p[k + 1]);
        }
        lemma_path_marked(g, from, q, marks);
        assert(edge(g, p[p.len() - 2], p[p.len() - 1]));
        let a = q.last() as int;
        let k = choose|k: int| 0 <= k < g[a].len() && g[a][k] == p.last();
        assert(marks[g[a][k] as int]);
    }
}

/// The nodes reachable from `from` in one step or more, marked by index.
pub fn reach_from(g: &Vec<Vec<usize>>, from: usize) -> (marks: Vec<bool>)
    requires
        graph_ok(lists(g@)),
        from < g@.len(),
    ensures
        marks@.len() == g@.len(),
        forall|x: int| 0 <= x < g@.len() ==> #[trigger] marks@[x] == reachable(lists(g@), from, x as usize),
{
    let ghost gs = lists(g@);
    let n = g.len();
    let mut marks: Vec<bool> = Vec::new();
    while marks.len() < n
        invariant
            marks@.len() <= n,
            forall|k: int| 0 <= k < marks@.len() ==> !marks@[k],
        decreases n - marks@.len(),
    {
        marks.push(false);
    }
    assert(gs[from as int] == g@[from as int]@);
    let first = &g[from];
    let mut k: usize = 0;
    while k < first.len()
        invariant
            k <= first@.len(),
            first@ == gs[from as int],
            gs == lists(g@),
            graph_ok(gs),
            from < n,
            n == g@.len(),
            marks@.len() == n,
            forall|t: int| 0 <= t < k ==> marks@[#[trigger] first@[t] as int],
            forall|x: int| 0 <= x < n && #[trigger] marks@[x] ==> reachable(gs, from, x as usize),
        decreases first@.len() - k,
    {
        let y = first[k];
        assert(y < n) by {
            assert(gs[from as int][k as int] == y);
        }
        proof {
            let p = seq![y];
            assert(first@[k as int] == y);
            assert(edge(gs, from, p[0]));
            assert(is_path(gs, from, p) && p.last() == y);
        }
        marks.set(y, true);
        k = k + 1;
    }
    let mut changed = true;
    while changed
        invariant
            gs == lists(g@),
            graph_ok(gs),
            from < n,
            n == g@.len(),
            marks@.len() == n,
            first@ == gs[from as int],
            forall|t: int| 0 <= t < first@.len() ==> marks@[#[trigger] first@[t] as int],
            forall|x: int| 0 <= x < n && #[trigger] marks@[x] ==> reachable(gs, from, x as usize),
            !changed ==> forall|a: int, t: int| 0 <= a < n && marks@[a] && 0 <= t < gs[a].len() ==> marks@[#[trigger] gs[a][t] as int],
        decreases count_false(marks@), if changed { 1nat } else { 0nat },
    {
        changed = false;
        let ghost start = marks@;
        let mut a: usize = 0;
        while a < n
            invariant
                gs == lists(g@),
                graph_ok(gs),
                from < n,
                n == g@.len(),
                a <= n,
                marks@.len() == n,
                first@ == gs[from as int],
                forall|t: int| 0 <= t < first@.len() ==> marks@[#[trigger] first@[t] as int],
                forall|x: int| 0 <= x < n && #[trigger] marks@[x] ==> reachable(gs, from, x as usize),
                !changed ==> marks@ == start,
                changed ==> count_false(marks@) < count_false(start),
                !changed ==> forall|b: int, t: int| 0 <= b < a && marks@[b] && 0 <= t < gs[b].len() ==> marks@[#[trigger] gs[b][t] as int],
            decreases n - a,
        {
            if marks[a] {
                assert(gs[a as int] == g@[a as int]@);
                let next = &g[a];
                let ghost before = marks@;
                let mut t: usize = 0;
                while t < next.len()
                    invariant
                        gs == lists(g@),
                        graph_ok(gs),
                        a < n,
                        n == g@.len(),
                        next@ == gs[a as int],
                        marks@.len() == n,
                        marks@[a as int],
                        t <= next@.len(),
                        first@ == gs[from as int],
                        forall|u: int| 0 <= u < first@.len() ==> marks@[#[trigger] first@[u] as int],
                        forall|x: int| 0 <= x < n && #[trigger] marks@[x] ==> reachable(gs, from, x as usize),
                        !changed ==> marks@ == start,
                        changed ==> count_false(marks@) < count_false(start),
                        !changed ==> forall|b: int, u: int| 0 <= b < a && marks@[b] && 0 <= u < gs[b].len() ==> marks@[#[trigger] gs[b][u] as int],
                        forall|u: int| 0 <= u < t ==> marks@[#[trigger] next@[u] as int],
                    decreases next@.len() - t,
                {
                    let y = next[t];
                    assert(y < n) by {
                        assert(gs[a as int][t as int] == y);
                    }
                    if !marks[y] {
                        proof {
                            let p = choose|p: Seq<usize>| is_path(gs, from, p) && p.last() == a as usize;
                            assert(next@[t as int] == y);
                            assert(edge(gs, a as usize, y));
                            lemma_path_extend(gs, from, p, y);
                            lemma_count_false_set(marks@, y as int);
                            if changed {
                            } else {
                                assert(marks@ == start);
                            }
                        }
                        marks.set(y, true);
                        changed = true;
                    }
                    t = t + 1;
                }
            }
            a = a + 1;
        }
    }
    proof {
        assert forall|x: int| 0 <= x < n implies #[trigger] marks@[x] == reachable(gs, from, x as usize) by {
            if reachable(gs, from, x as usize) {
                let p = choose|p: Seq<usize>| is_path(gs, from, p) && p.last() == x as usize;
                assert forall|t: int| 0 <= t < gs[from as int].len() implies marks@[#[trigger] gs[from as int][t] as int] by {
                    assert(first@[t] == gs[from as int][t]);
                }
                lemma_path_marked(gs, from, p, marks@);
            }
        }
    }
    marks
}

/// The entries among the first `m` of `l` that satisfy `p`, in order.
pub open spec fn keep(l: Seq<usize>, m: int, p: spec_fn(usize) -> bool) -> Seq<usize>
    decreases m,
{
    if m <= 0 {
        Seq::empty()
    } else {
        keep(l, m - 1, p) + if p(l[m - 1]) {
            seq![l[m - 1]]
        } else {
            Seq::empty()
        }
    }
}

/// The list is in strictly increasing order.
pub open spec fn increasing(l: Seq<usize>) -> bool {
    forall|a: int, b: int| 0 <= a < b < l.len() ==> (#[trigger] l[a]) < (#[trigger] l[b])
}

proof fn lemma_keep(l: Seq<usize>, m: int, p: spec_fn(usize) -> bool)
    requires
        0 <= m <= l.len(),
        increasing(l),
    ensures
        increasing(keep(l, m, p)),
        forall|k: int| 0 <= k < keep(l, m, p).len() ==> exists|j: int| 0 <= j < m && l[j] == #[trigger] keep(l, m, p)[k],
        forall|k: int| 0 <= k < keep(l, m, p).len() ==> p(#[trigger] keep(l, m, p)[k]),
        forall|j: int| 0 <= j < m && p(l[j]) ==> #[trigger] keep(l, m, p).contains(l[j]),
    decreases m,
{
    if m > 0 {
        lemma_keep(l, m - 1, p);
        let prev = keep(l, m - 1, p);
        let s = keep(l, m, p);
        assert forall|k: int| 0 <= k < s.len() implies exists|j: int| 0 <= j < m && l[j] == #[trigger] s[k] by {
            if k < prev.len() {
                assert(s[k] == prev[k]);
                let j = choose|j: int| 0 <= j < m - 1 && l[j] == prev[k];
                assert(l[j] == s[k]);
            } else {
                assert(l[m - 1] == s[k]);
            }
        }
        assert forall|k: int| 0 <= k < s.len() implies p(#[trigger] s[k]) by {
            if k < prev.len() {
                assert(s[k] == prev[k]);
            }
        }
        assert forall|j: int| 0 <= j < m && p(l[j]) implies #[trigger] s.contains(l[j]) by {
            if j < m - 1 {
                assert(prev.contains(l[j]));
                let k = choose|k: int| 0 <= k < prev.len() && prev[k] == l[j];
                assert(s[k] == prev[k]);
            } else {
                assert(s[s.len() - 1] == l[j]);
            }
        }
        assert forall|a: int, b: int| 0 <= a < b < s.len() implies (#[trigger] s[a]) < (#[trigger] s[b]) by {
            assert(s[a] == prev[a]);
            if b < prev.len() {
                assert(s[b] == prev[b]);
            } else {
                let j = choose|j: int| 0 <= j < m - 1 && l[j] == prev[a];
                assert(l[j] < l[m - 1]);
            }
        }
    }
}

/// The graph of the bricks: for every brick, the bricks above it.
pub open spec fn graph_of(bs: Seq<Brick>) -> Seq<Seq<usize>> {
    Seq::new(bs.len(), |i: int| above_of(bs, i))
}

/// Brick `x` is stacked, directly or not, on one of the bricks `tops`.
pub open spec fn stacked_on(bs: Seq<Brick>, tops: Seq<usize>, x: usize) -> bool {
    exists|k: int| 0 <= k < tops.len() && reachable(graph_of(bs), #[trigger] tops[k], x)
}

/// The bricks that brick `t` holds up directly: those above it that are not
/// stacked on another brick above it.
pub open spec fn supporting_of(bs: Seq<Brick>, t: int) -> Seq<usize> {
    keep(above_of(bs, t), above_of(bs, t).len() as int, |x: usize| !stacked_on(bs, above_of(bs, t), x))
}

/// The bricks that hold up brick `s` directly, by index.
pub open spec fn supporters(bs: Seq<Brick>, s: int) -> Seq<usize> {
    select(bs.len() as int, |b: int| supporting_of(bs, b).contains(s as usize))
}

/// Brick `b` can be taken away: every brick it holds up directly has another
/// brick holding it up.
pub open spec fn removable(bs: Seq<Brick>, b: int) -> bool {
    forall|k: int| 0 <= k < supporting_of(bs, b).len() ==> #[trigger] supporters(bs, supporting_of(bs, b)[k] as int).len() > 1
}

/// How many bricks can be taken away.
pub open spec fn removable_count(bs: Seq<Brick>) -> nat {
    select(bs.len() as int, |b: int| removable(bs, b)).len()
}

proof fn lemma_graph(bs: Seq<Brick>)
    requires
        bs.len() <= usize::MAX,
    ensures
        graph_ok(graph_of(bs)),
        forall|i: int| 0 <= i < bs.len() ==> increasing(#[trigger] above_of(bs, i)),
{
    let g = graph_of(bs);
    assert forall|i: int| 0 <= i < bs.len() implies increasing(#[trigger] above_of(bs, i)) by {
        lemma_select(bs.len() as int, |j: int| lies_above(bs, i, j));
    }
    assert forall|a: int, k: int| 0 <= a < g.len() && 0 <= k < g[a].len() implies (#[trigger] g[a][k]) < g.len() by {
        lemma_select(bs.len() as int, |j: int| lies_above(bs, a, j));
    }
}

/// For every brick, the bricks stacked on it directly or not, marked by index.
fn stacked_all(above: &Vec<Vec<usize>>, Ghost(bs): Ghost<Seq<Brick>>) -> (st: Vec<Vec<bool>>)
    requires
        above@.len() == bs.len(),
        forall|i: int| 0 <= i < bs.len() ==> (#[trigger] above@[i])@ == above_of(bs, i),
    ensures
        st@.len() == bs.len(),
        forall|a: int, x: int| 0 <= a < bs.len() && 0 <= x < bs.len() ==> #[trigger] st@[a]@[x] == reachable(graph_of(bs), a as usize, x as usize),
        forall|a: int| 0 <= a < bs.len() ==> (#[trigger] st@[a])@.len() == bs.len(),
{
    let n = above.len();
    proof {
        lemma_graph(bs);
        assert(lists(above@) =~= graph_of(bs));
    }
    let mut st: Vec<Vec<bool>> = Vec::new();
    let mut a: usize = 0;
    while a < n
        invariant
            a <= n,
            n == bs.len(),
            above@.len() == n,
            lists(above@) == graph_of(bs),
            graph_ok(graph_of(bs)),
            st@.len() == a,
            forall|b: int, x: int| 0 <= b < a && 0 <= x < n ==> #[trigger] st@[b]@[x] == reachable(graph_of(bs), b as usize, x as usize),
            forall|b: int| 0 <= b < a ==> (#[trigger] st@[b])@.len() == n,
        decreases n - a,
    {
        let marks = reach_from(above, a);
        st.push(marks);
        a = a + 1;
    }
    st
}

/// For every brick, the bricks it holds up directly.
fn supporting_lists(above: &Vec<Vec<usize>>, st: &Vec<Vec<bool>>, Ghost(bs): Ghost<Seq<Brick>>) -> (sup: Vec<Vec<usize>>)
    requires
        above@.len() == bs.len(),
        forall|i: int| 0 <= i < bs.len() ==> (#[trigger] above@[i])@ == above_of(bs, i),
        st@.len() == bs.len(),
        forall|a: int, x: int| 0 <= a < bs.len() && 0 <= x < bs.len() ==> #[trigger] st@[a]@[x] == reachable(graph_of(bs), a as usize, x as usize),
        forall|a: int| 0 <= a < bs.len() ==> (#[trigger] st@[a])@.len() == bs.len(),
    ensures
        sup@.len() == bs.len(),
        forall|t: int| 0 <= t < bs.len() ==> (#[trigger] sup@[t])@ == supporting_of(bs, t),
{
    let n = above.len();
    proof {
        lemma_graph(bs);
    }
    let mut sup: Vec<Vec<usize>> = Vec::new();
    let mut t: usize = 0;
    while t < n
        invariant
            t <= n,
            n == bs.len(),
            above@.len() == n,
            forall|i: int| 0 <= i < bs.len() ==> (#[trigger] above@[i])@ == above_of(bs, i),
            st@.len() == n,
            forall|a: int, x: int| 0 <= a < n && 0 <= x < n ==> #[trigger] st@[a]@[x] == reachable(graph_of(bs), a as usize, x as usize),
            forall|a: int| 0 <= a < n ==> (#[trigger] st@[a])@.len() == n,
            graph_ok(graph_of(bs)),
            sup@.len() == t,
            forall|u: int| 0 <= u < t ==> (#[trigger] sup@[u])@ == supporting_of(bs, u),
        decreases n - t,
    {
        let tops = &above[t];
        let ghost tl = above_of(bs, t as int);
        assert(tops@ == tl);
        assert(graph_of(bs)[t as int] == tl);
        let ghost free = |x: usize| !stacked_on(bs, tl, x);
        let mut direct: Vec<usize> = Vec::new();
        let mut i: usize = 0;
        while i < tops.len()
            invariant
                i <= tops@.len(),
                tops@ == tl,
                tl == above_of(bs, t as int),
                t < n,
                n == bs.len(),
                graph_of(bs)[t as int] == tl,
                graph_ok(graph_of(bs)),
                st@.len() == n,
                forall|a: int, x: int| 0 <= a < n && 0 <= x < n ==> #[trigger] st@[a]@[x] == reachable(graph_of(bs), a as usize, x as usize),
                forall|a: int| 0 <= a < n ==> (#[trigger] st@[a])@.len() == n,
                free == (|x: usize| !stacked_on(bs, tl, x)),
                direct@ == keep(tl, i as int, free),
            decreases tops@.len() - i,
        {
            let x = tops[i];
            assert(x < n) by {
                assert(graph_of(bs)[t as int][i as int] == x);
            }
            let mut is_free = true;
            let mut k: usize = 0;
            while k < tops.len()
                invariant
                    k <= tops@.len(),
                    tops@ == tl,
                    t < n,
                    n == bs.len(),
                    x < n,
                    graph_of(bs)[t as int] == tl,
                    graph_ok(graph_of(bs)),
                    st@.len() == n,
                    forall|a: int, y: int| 0 <= a < n && 0 <= y < n ==> #[trigger] st@[a]@[y] == reachable(graph_of(bs), a as usize, y as usize),
                    forall|a: int| 0 <= a < n ==> (#[trigger] st@[a])@.len() == n,
                    is_free == !exists|j: int| 0 <= j < k && reachable(graph_of(bs), #[trigger] tl[j], x),
                decreases tops@.len() - k,
            {
                let b = tops[k];
                assert(b < n) by {
                    assert(graph_of(bs)[t as int][k as int] == b);
                }
                if st[b][x] {
                    is_free = false;
                }
                k = k + 1;
            }
            assert(is_free == free(x));
            if is_free {
                direct.push(x);
            }
            assert(direct@ =~= keep(tl, i + 1, free));
            i = i + 1;
        }
        sup.push(direct);
        t = t + 1;
    }
    sup
}

/// For every brick, the bricks that hold it up directly, in order.
pub fn supported_by_lists(sup: &Vec<Vec<usize>>) -> (sb: Vec<Vec<usize>>)
    requires
        forall|b: int| 0 <= b < sup@.len() ==> increasing(#[trigger] sup@[b]@),
        forall|b: int, k: int| 0 <= b < sup@.len() && 0 <= k < sup@[b]@.len() ==> (#[trigger] sup@[b]@[k]) < sup@.len(),
    ensures
        sb@.len() == sup@.len(),
        forall|s: int| 0 <= s < sup@.len() ==> (#[trigger] sb@[s])@ == select(sup@.len() as int, |b: int| sup@[b]@.contains(s as usize)),
{
    let n = sup.len();
    let mut sb: Vec<Vec<usize>> = Vec::new();
    while sb.len() < n
        invariant
            sb@.len() <= n,
            forall|s: int| 0 <= s < sb@.len() ==> (#[trigger] sb@[s])@ == Seq::<usize>::empty(),
        decreases n - sb@.len(),
    {
        sb.push(Vec::new());
    }
    let mut b: usize = 0;
    while b < n
        invariant
            b <= n,
            n == sup@.len(),
            sb@.len() == n,
            forall|c: int| 0 <= c < n ==> increasing(#[trigger] sup@[c]@),
            forall|c: int, k: int| 0 <= c < n && 0 <= k < sup@[c]@.len() ==> (#[trigger] sup@[c]@[k]) < n,
            forall|s: int| 0 <= s < n ==> (#[trigger] sb@[s])@ == select(b as int, |c: int| sup@[c]@.contains(s as usize)),
        decreases n - b,
    {
        let list = &sup[b];
        let mut k: usize = 0;
        while k < list.len()
            invariant
                b < n,
                n == sup@.len(),
                sb@.len() == n,
                list@ == sup@[b as int]@,
                increasing(list@),
                forall|j: int| 0 <= j < list@.len() ==> (#[trigger] list@[j]) < n,
                k <= list@.len(),
                forall|s: int| 0 <= s < n ==> (#[trigger] sb@[s])@ == select(b as int, |c: int| sup@[c]@.contains(s as usize)) + if list@.take(k as int).contains(s as usize) {
                    seq![b]
                } else {
                    Seq::<usize>::empty()
                },
            decreases list@.len() - k,
        {
            let s = list[k];
            let ghost old_sb = sb@;
            assert(!list@.take(k as int).contains(s)) by {
                if list@.take(k as int).contains(s) {
                    let j = choose|j: int| 0 <= j < k && #[trigger] list@.take(k as int)[j] == s;
                    assert(list@[j] < list@[k as int]);
                }
            }
            let mut entry = Vec::new();
            std::mem::swap(&mut entry, &mut sb[s]);
            entry.push(b);
            std::mem::swap(&mut entry, &mut sb[s]);
            proof {
                assert forall|u: int| 0 <= u < n implies (#[trigger] sb@[u])@ == select(b as int, |c: int| sup@[c]@.contains(u as usize)) + if list@.take(k + 1).contains(u as usize) {
                    seq![b]
                } else {
                    Seq::<usize>::empty()
                } by {
                    assert(list@.take(k + 1) =~= list@.take(k as int).push(s));
                    if u == s as int {
                        assert(list@.take(k + 1)[k as int] == s);
                        assert(list@.take(k + 1).contains(s));
                    } else {
                        assert(sb@[u] == old_sb[u]);
                        if list@.take(k + 1).contains(u as usize) {
                            let j = choose|j: int| 0 <= j < k + 1 && #[trigger] list@.take(k + 1)[j] == u as usize;
                            assert(list@.take(k as int)[j] == u as usize);
                        }
                    }
                }
            }
            k = k + 1;
        }
        proof {
            assert(list@.take(k as int) =~= list@);
            assert forall|u: int| 0 <= u < n implies (#[trigger] sb@[u])@ == select(b + 1, |c: int| sup@[c]@.contains(u as usize)) by {
            }
        }
        b = b + 1;
    }
    sb
}

/// Counts the bricks `b` for which every brick in `sup[b]` has more than one
/// entry in `sb`.
pub fn count_free(sup: &Vec<Vec<usize>>, sb: &Vec<Vec<usize>>) -> (r: usize)
    requires
        forall|b: int, k: int| 0 <= b < sup@.len() && 0 <= k < sup@[b]@.len() ==> (#[trigger] sup@[b]@[k]) < sb@.len(),
    ensures
        r == select(sup@.len() as int, |b: int| forall|k: int| 0 <= k < sup@[b]@.len() ==> #[trigger] sb@[sup@[b]@[k] as int]@.len() > 1).len(),
{
    let ghost p = |b: int| forall|k: int| 0 <= k < sup@[b]@.len() ==> #[trigger] sb@[sup@[b]@[k] as int]@.len() > 1;
    let n = sup.len();
    let mut result: usize = 0;
    let mut bn: usize = 0;
    while bn < n
        invariant
            bn <= n,
            n == sup@.len(),
            forall|b: int, k: int| 0 <= b < sup@.len() && 0 <= k < sup@[b]@.len() ==> (#[trigger] sup@[b]@[k]) < sb@.len(),
            p == (|b: int| forall|k: int| 0 <= k < sup@[b]@.len() ==> #[trigger] sb@[sup@[b]@[k] as int]@.len() > 1),
            result == select(bn as int, p).len(),
            result <= bn,
        decreases n - bn,
    {
        let list = &sup[bn];
        let mut can_nuke = true;
        let mut k: usize = 0;
        while k < list.len()
            invariant_except_break
                can_nuke,
                forall|j: int| 0 <= j < k ==> #[trigger] sb@[list@[j] as int]@.len() > 1,
            invariant
                bn < n,
                n == sup@.len(),
                list@ == sup@[bn as int]@,
                forall|j: int| 0 <= j < list@.len() ==> (#[trigger] list@[j]) < sb@.len(),
                k <= list@.len(),
            ensures
                can_nuke == forall|j: int| 0 <= j < list@.len() ==> #[trigger] sb@[list@[j] as int]@.len() > 1,
            decreases list@.len() - k,
        {
            let s = list[k];
            if sb[s].len() <= 1 {
                can_nuke = false;
                break;
            }
            k = k + 1;
        }
        assert(can_nuke == p(bn as int));
        if can_nuke {
            result = result + 1;
        }
        bn = bn + 1;
    }
    result
}

/// The number of bricks that could be taken away once the bricks, ordered by
/// lower height, rest on each other; `None` where a brick would have to rise
/// or sink to the ground or below it to come to rest.
pub fn count_removable(bricks: Vec<Brick>) -> (r: Option<usize>)
    ensures
        r == (if settled(sort_by_bottom_spec(bricks@)) {
            Some(removable_count(sort_by_bottom_spec(bricks@)) as usize)
        } else {
            Option::<usize>::None
        }),
        r matches Some(v) ==> v == removable_count(sort_by_bottom_spec(bricks@)),
{
    let mut bricks = bricks;
    sort_by_bottom(&mut bricks);
    let ghost bs = bricks@;
    let _n = bricks.len();
    let (below, above) = neighbours(&bricks);
    if !drop_bricks(&mut bricks, &below) {
        return None;
    }
    let st = stacked_all(&above, Ghost(bs));
    let sup = supporting_lists(&above, &st, Ghost(bs));
    proof {
        lemma_graph(bs);
        assert forall|b: int| 0 <= b < sup@.len() implies increasing(#[trigger] sup@[b]@) && forall|k: int| 0 <= k < sup@[b]@.len() ==> (#[trigger] sup@[b]@[k]) < sup@.len() by {
            let tl = above_of(bs, b);
            let p = |x: usize| !stacked_on(bs, tl, x);
            lemma_keep(tl, tl.len() as int, p);
            assert forall|k: int| 0 <= k < sup@[b]@.len() implies (#[trigger] sup@[b]@[k]) < sup@.len() by {
                let j = choose|j: int| 0 <= j < tl.len() && tl[j] == keep(tl, tl.len() as int, p)[k];
                assert(graph_of(bs)[b] == tl);
            }
        }
    }
    let sb = supported_by_lists(&sup);
    let r = count_free(&sup, &sb);
    proof {
        let n = bs.len() as int;
        let p1 = |b: int| forall|k: int| 0 <= k < sup@[b]@.len() ==> #[trigger] sb@[sup@[b]@[k] as int]@.len() > 1;
        let p2 = |b: int| removable(bs, b);
        assert forall|s: int| 0 <= s < n implies #[trigger] sb@[s]@ == supporters(bs, s) by {
            assert(select(n, |b: int| sup@[b]@.contains(s as usize)) == select(n, |b: int| supporting_of(bs, b).contains(s as usize))) by {
                lemma_select_same(n, |b: int| sup@[b]@.contains(s as usize), |b: int| supporting_of(bs, b).contains(s as usize));
            }
        }
        assert forall|b: int| 0 <= b < n implies #[trigger] p1(b) == p2(b) by {
            assert forall|k: int| 0 <= k < sup@[b]@.len() implies (#[trigger] sb@[sup@[b]@[k] as int])@ == supporters(bs, sup@[b]@[k] as int) by {
                assert(sup@[b]@[k] < n);
            }
            assert(sup@[b]@ == supporting_of(bs, b));
            if p1(b) {
                assert forall|k: int| 0 <= k < supporting_of(bs, b).len() implies #[trigger] supporters(bs, supporting_of(bs, b)[k] as int).len() > 1 by {
                    assert(sb@[sup@[b]@[k] as int]@.len() > 1);
                }
            }
            if p2(b) {
                assert forall|k: int| 0 <= k < sup@[b]@.len() implies #[trigger] sb@[sup@[b]@[k] as int]@.len() > 1 by {
                    assert(supporters(bs, supporting_of(bs, b)[k] as int).len() > 1);
                }
            }
        }
        lemma_select_same(n, p1, p2);
        lemma_select(n, p2);
    }
    Some(r)
}

proof fn lemma_select_same(m: int, p: spec_fn(int) -> bool, q: spec_fn(int) -> bool)
    requires
        forall|i: int| 0 <= i < m ==> #[trigger] p(i) == q(i),
    ensures
        select(m, p) == select(m, q),
    decreases m,
{
    if m > 0 {
        lemma_select_same(m - 1, p, q);
    }
}

/// The number of removable bricks for the brick list `data`, whose every
/// line is a brick (first corner not above the second) and whose bricks,
/// lowest first, each rest on the highest brick below them or the ground.
pub fn removable_bricks(data: &str) -> (r: usize)
    requires
        bricks_readable(lines_spec(data@)),
        settled(sort_by_bottom_spec(bricks_of(lines_spec(data@)))),
    ensures
        r == removable_count(sort_by_bottom_spec(bricks_of(lines_spec(data@)))),
{
    let bricks = parse_bricks(data).unwrap();
    count_removable(bricks).unwrap()
}

} // verus!
