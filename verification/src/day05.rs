//! Seed ranges pushed through a chain of range maps; each map moves the parts
//! of a range that fall into its source intervals.
use vstd::prelude::*;
use crate::text::{chars_of, lines, lines_spec, numbers_spec, parse_numbers, rows, trim, trim_spec};
use crate::day01::starts_with;

verus! {

broadcast use vstd::seq_lib::group_to_multiset_ensures;

/// One line of a map: `length` values from `start_in` move to `start_out`.
#[derive(Debug, Copy, Clone, PartialEq, Eq)]
pub struct Item {
    pub start_in: i64,
    pub start_out: i64,
    pub length: i64,
}

/// What one map line does to a range `(start, length)`.
#[derive(Debug, Copy, Clone, PartialEq, Eq)]
pub enum Mapped {
    Unmapped,
    Full((i64, i64)),
    Partial((i64, i64), (i64, i64)),
}

/// What [`Item::map`] gives: when the range starts inside the source
/// interval, the part inside moves by `start_out - start_in` and any part
/// past the interval's end is handed back; otherwise nothing happens.
pub open spec fn map_spec(it: Item, r: (i64, i64)) -> Mapped {
    let (sin, sout, slen) = (it.start_in as int, it.start_out as int, it.length as int);
    let (rin, rlen) = (r.0 as int, r.1 as int);
    if rin >= sin && rin < sin + slen {
        if rin + rlen <= sin + slen {
            Mapped::Full(((sout + (rin - sin)) as i64, r.1))
        } else {
            let num = (sin + slen) - rin;
            Mapped::Partial(((sout + (rin - sin)) as i64, num as i64), ((rin + num) as i64, (rlen - num) as i64))
        }
    } else {
        Mapped::Unmapped
    }
}

/// The arithmetic of [`Item::map`] stays within `i64`.
pub open spec fn map_fits(it: Item, r: (i64, i64)) -> bool {
    let (sin, sout, slen) = (it.start_in as int, it.start_out as int, it.length as int);
    let (rin, rlen) = (r.0 as int, r.1 as int);
    &&& i64::MIN <= sin + slen <= i64::MAX
    &&& i64::MIN <= rin + rlen <= i64::MAX
    &&& i64::MIN <= rin - sin <= i64::MAX
    &&& i64::MIN <= sout + (rin - sin) <= i64::MAX
    &&& i64::MIN <= rlen - ((sin + slen) - rin) <= i64::MAX
}

impl Item {
    pub fn new(start_in: i64, start_out: i64, length: i64) -> (it: Item)
        ensures
            it == (Item { start_in, start_out, length }),
    {
        Item { start_in, start_out, length }
    }

    /// The same as [`Item::map`].
    pub fn map_d(&self, item: (i64, i64)) -> (r: Mapped)
        requires
            map_fits(*self, item),
        ensures
            r == map_spec(*self, item),
    {
        self.map(item)
    }

    /// Maps the range `(start, length)` through this line.
    pub fn map(&self, item: (i64, i64)) -> (r: Mapped)
        requires
            map_fits(*self, item),
        ensures
            r == map_spec(*self, item),
    {
        let sin = self.start_in;
        let sout = self.start_out;
        let slen = self.length;
        let rin = item.0;
        let rlen = item.1;
        if rin >= sin && rin < sin + slen {
            if rin + rlen <= sin + slen {
                Mapped::Full((sout + (rin - sin), rlen))
            } else {
                let num_mapped = (sin + slen) - rin;
                Mapped::Partial((sout + (rin - sin), num_mapped), (rin + num_mapped, rlen - num_mapped))
            }
        } else {
            Mapped::Unmapped
        }
    }
}

/// A moved range keeps its length, and a split range is cut into two pieces
/// whose lengths add up to the original, the second starting where the
/// source interval ends.
pub proof fn lemma_map_keeps_length(it: Item, r: (i64, i64))
    requires
        map_fits(it, r),
    ensures
        map_spec(it, r) matches Mapped::Full(a) ==> a.1 == r.1 && a.0 - it.start_out == r.0 - it.start_in,
        map_spec(it, r) matches Mapped::Partial(a, b) ==> a.1 + b.1 == r.1 && b.0 == it.start_in
            + it.length && a.0 == it.start_out + (r.0 - it.start_in) && a.1 > 0 && b.1 > 0,
{
}

/// The pieces a range becomes when it meets the map lines `items[i..]` in
/// order: a line that moves the whole range ends the walk, a line that moves
/// a front part hands the rest on, and what is left at the end stays put.
pub open spec fn pieces_from(items: Seq<Item>, i: int, r: (i64, i64)) -> Seq<(i64, i64)>
    decreases items.len() - i,
{
    if i >= items.len() || i < 0 {
        seq![r]
    } else {
        match map_spec(items[i], r) {
            Mapped::Unmapped => pieces_from(items, i + 1, r),
            Mapped::Full(a) => seq![a],
            Mapped::Partial(a, b) => seq![a] + pieces_from(items, i + 1, b),
        }
    }
}

/// Every step of the walk stays within `i64`.
pub open spec fn walk_fits(items: Seq<Item>, i: int, r: (i64, i64)) -> bool
    decreases items.len() - i,
{
    if i >= items.len() || i < 0 {
        true
    } else {
        map_fits(items[i], r) && match map_spec(items[i], r) {
            Mapped::Unmapped => walk_fits(items, i + 1, r),
            Mapped::Full(_) => true,
            Mapped::Partial(_, b) => walk_fits(items, i + 1, b),
        }
    }
}

/// The pieces of all ranges, range after range.
pub open spec fn all_pieces(items: Seq<Item>, rs: Seq<(i64, i64)>) -> Seq<(i64, i64)>
    decreases rs.len(),
{
    if rs.len() == 0 {
        Seq::empty()
    } else {
        all_pieces(items, rs.drop_last()) + pieces_from(items, 0, rs.last())
    }
}

pub open spec fn sorted_by_start(s: Seq<(i64, i64)>) -> bool {
    forall|i: int, j: int| 0 <= i <= j < s.len() ==> (#[trigger] s[i]).0 <= (#[trigger] s[j]).0
}

/// The pieces one range becomes.
pub fn map_range(items: &Vec<Item>, r: (i64, i64)) -> (res: Vec<(i64, i64)>)
    requires
        walk_fits(items@, 0, r),
    ensures
        res@ == pieces_from(items@, 0, r),
{
    let mut res: Vec<(i64, i64)> = Vec::new();
    let mut cur = r;
    let mut i: usize = 0;
    while i < items.len()
        invariant
            i <= items@.len(),
            walk_fits(items@, i as int, cur),
            res@ + pieces_from(items@, i as int, cur) == pieces_from(items@, 0, r),
        decreases items@.len() - i,
    {
        match items[i].map(cur) {
            Mapped::Unmapped => {},
            Mapped::Full(a) => {
                let ghost before = res@;
                res.push(a);
                assert(res@ =~= before + pieces_from(items@, i as int, cur));
                return res;
            },
            Mapped::Partial(a, b) => {
                let ghost before = res@;
                res.push(a);
                assert(before + pieces_from(items@, i as int, cur) =~= res@ + pieces_from(
                    items@,
                    i + 1,
                    b,
                ));
                cur = b;
            },
        }
        i = i + 1;
    }
    let ghost before = res@;
    res.push(cur);
    assert(res@ =~= before + pieces_from(items@, i as int, cur));
    res
}

/// Sorts ranges by their start, keeping the order of ranges that start at
/// the same value.
pub fn sort_by_start(v: &mut Vec<(i64, i64)>)
    ensures
        sorted_by_start(final(v)@),
        final(v)@.to_multiset() == old(v)@.to_multiset(),
        final(v)@.len() == old(v)@.len(),
{
    broadcast use vstd::seq_lib::group_to_multiset_ensures;
    let n = v.len();
    let mut i: usize = 1;
    if n == 0 {
        return;
    }
    while i < n
        invariant
            1 <= i <= n,
            n == v@.len(),
            sorted_by_start(v@.take(i as int)),
            v@.to_multiset() == old(v)@.to_multiset(),
        decreases n - i,
    {
        let mut j: usize = i;
        assert forall|a: int, b: int| 0 <= a <= b <= i && a != j && b != j implies (#[trigger] v@[a]).0 <= (#[trigger] v@[b]).0 by {
            assert(v@.take(i as int)[a] == v@[a]);
            assert(v@.take(i as int)[b] == v@[b]);
        }
        while j > 0 && v[j - 1].0 > v[j].0
            invariant
                0 <= j <= i < n,
                n == v@.len(),
                v@.to_multiset() == old(v)@.to_multiset(),
                forall|a: int, b: int| 0 <= a <= b <= i && a != j && b != j ==> (#[trigger] v@[a]).0 <= (#[trigger] v@[b]).0,
                forall|b: int| j < b <= i ==> v@[j as int].0 < (#[trigger] v@[b]).0,
            decreases j,
        {
            let x = v[j - 1];
            let y = v[j];
            let ghost before = v@;
            v.set(j - 1, y);
            v.set(j, x);
            proof {
                let s1 = before.update(j - 1, y);
                assert(v@ =~= s1.update(j as int, x));
                assert(before[j - 1] == x);
                assert(s1[j as int] == y);
                vstd::seq_lib::to_multiset_update(before, j - 1, y);
                vstd::seq_lib::to_multiset_update(s1, j as int, x);
                broadcast use vstd::multiset::group_multiset_axioms;
                broadcast use vstd::seq_lib::group_to_multiset_ensures;
                assert(before.to_multiset().count(x) >= 1) by {
                    assert(before.contains(x));
                }
                assert forall|e: (i64, i64)| v@.to_multiset().count(e) == before.to_multiset().count(e) by {}
                assert(v@.to_multiset() =~= before.to_multiset());
            }
            j = j - 1;
        }
        assert(sorted_by_start(v@.take(i + 1))) by {
            assert forall|a: int, b: int| 0 <= a <= b < i + 1 implies (#[trigger] v@.take(i + 1)[a]).0 <= (#[trigger] v@.take(i + 1)[b]).0 by {
                assert(v@.take(i + 1)[a] == v@[a]);
                assert(v@.take(i + 1)[b] == v@[b]);
                if a != j && b != j {
                } else if a == j && b == j {
                } else if a == j {
                    assert(v@[j as int].0 < v@[b].0);
                } else {
                    assert(j > 0);
                    assert(v@[j - 1].0 <= v@[j as int].0);
                    assert(v@[a].0 <= v@[j - 1].0);
                }
            }
        }
        i = i + 1;
    }
    assert(v@.take(n as int) =~= v@);
}

proof fn lemma_all_pieces_concat(items: Seq<Item>, s: Seq<(i64, i64)>, t: Seq<(i64, i64)>)
    ensures
        all_pieces(items, s + t) == all_pieces(items, s) + all_pieces(items, t),
    decreases t.len(),
{
    if t.len() == 0 {
        assert(s + t =~= s);
        assert(all_pieces(items, s) + all_pieces(items, t) =~= all_pieces(items, s));
    } else {
        lemma_all_pieces_concat(items, s, t.drop_last());
        assert((s + t).drop_last() =~= s + t.drop_last());
        assert((s + t).last() == t.last());
        assert(all_pieces(items, s + t) =~= all_pieces(items, s) + all_pieces(items, t));
    }
}

/// Reordering the ranges of a stage does not change which pieces come out.
pub proof fn lemma_all_pieces_perm(items: Seq<Item>, a: Seq<(i64, i64)>, b: Seq<(i64, i64)>)
    requires
        a.to_multiset() == b.to_multiset(),
    ensures
        all_pieces(items, a).to_multiset() == all_pieces(items, b).to_multiset(),
    decreases a.len(),
{
    broadcast use vstd::seq_lib::group_to_multiset_ensures;
    broadcast use vstd::multiset::group_multiset_axioms;
    if a.len() == 0 {
        assert(b.to_multiset().len() == 0);
        assert(b.len() == 0);
        assert(b =~= a);
    } else {
        let x = a.last();
        let a0 = a.drop_last();
        assert(a =~= a0.push(x));
        assert(a.to_multiset().count(x) > 0);
        assert(b.contains(x));
        let k = choose|k: int| 0 <= k < b.len() && b[k] == x;
        let b1 = b.take(k);
        let b2 = b.skip(k + 1);
        assert(b =~= b1 + seq![x] + b2);
        assert(b.remove(k) =~= b1 + b2);
        vstd::seq_lib::to_multiset_remove(b, k);
        assert(a0.to_multiset() =~= a.to_multiset().remove(x));
        lemma_all_pieces_perm(items, a0, b1 + b2);
        lemma_all_pieces_concat(items, b1, b2);
        lemma_all_pieces_concat(items, b1 + seq![x], b2);
        lemma_all_pieces_concat(items, b1, seq![x]);
        assert(all_pieces(items, seq![x]) =~= pieces_from(items, 0, x)) by {
            assert(seq![x].drop_last() =~= Seq::<(i64, i64)>::empty());
            assert(seq![x].last() == x);
            assert(all_pieces(items, Seq::<(i64, i64)>::empty()) =~= Seq::<(i64, i64)>::empty());
            assert(all_pieces(items, seq![x]) == all_pieces(items, seq![x].drop_last()) + pieces_from(items, 0, seq![x].last()));
        }
        vstd::seq_lib::lemma_multiset_commutative(all_pieces(items, a0), pieces_from(items, 0, x));
        vstd::seq_lib::lemma_multiset_commutative(all_pieces(items, b1), pieces_from(items, 0, x));
        vstd::seq_lib::lemma_multiset_commutative(all_pieces(items, b1) + pieces_from(items, 0, x), all_pieces(items, b2));
        vstd::seq_lib::lemma_multiset_commutative(all_pieces(items, b1), all_pieces(items, b2));
        assert(all_pieces(items, a).to_multiset() =~= all_pieces(items, b).to_multiset());
    }
}

/// One stage: the pieces of every range, sorted by start.
pub fn map_stage(cur_all: &Vec<(i64, i64)>, map: &Vec<Item>) -> (res: Vec<(i64, i64)>)
    requires
        forall|k: int| 0 <= k < cur_all@.len() ==> walk_fits(map@, 0, #[trigger] cur_all@[k]),
    ensures
        sorted_by_start(res@),
        res@.to_multiset() == all_pieces(map@, cur_all@).to_multiset(),
{
    let mut next_all: Vec<(i64, i64)> = Vec::new();
    let mut i: usize = 0;
    while i < cur_all.len()
        invariant
            i <= cur_all@.len(),
            forall|k: int| 0 <= k < cur_all@.len() ==> walk_fits(map@, 0, #[trigger] cur_all@[k]),
            next_all@ == all_pieces(map@, cur_all@.take(i as int)),
        decreases cur_all@.len() - i,
    {
        let mut pieces = map_range(map, cur_all[i]);
        assert(cur_all@.take(i + 1).drop_last() =~= cur_all@.take(i as int));
        next_all.append(&mut pieces);
        i = i + 1;
    }
    assert(cur_all@.take(i as int) =~= cur_all@);
    sort_by_start(&mut next_all);
    next_all
}

/// The ranges after the first `maps.len()` stages, ignoring the order
/// within a stage (which does not affect the pieces).
pub open spec fn stages_spec(seeds: Seq<(i64, i64)>, maps: Seq<Seq<Item>>) -> Seq<(i64, i64)>
    decreases maps.len(),
{
    if maps.len() == 0 {
        seeds
    } else {
        all_pieces(maps.last(), stages_spec(seeds, maps.drop_last()))
    }
}

/// Every range of every stage can be walked through the next map in `i64`.
pub open spec fn stages_fit(seeds: Seq<(i64, i64)>, maps: Seq<Seq<Item>>) -> bool {
    forall|k: int, r: (i64, i64)|
        0 <= k < maps.len() && #[trigger] stages_spec(seeds, maps.take(k)).contains(r) ==> walk_fits(
            maps[k],
            0,
            r,
        )
}

/// The lowest start among the ranges that come out of the last map (with no
/// maps at all, the start of the first seed range); `None` when no range
/// comes out (there are no seeds).
pub fn lowest_location(seeds: &Vec<(i64, i64)>, maps: &Vec<Vec<Item>>) -> (res: Option<i64>)
    requires
        stages_fit(seeds@, maps@.map_values(|m: Vec<Item>| m@)),
    ensures
        ({
            let fin = stages_spec(seeds@, maps@.map_values(|m: Vec<Item>| m@));
            &&& res is None <==> fin.len() == 0
            &&& res matches Some(v) ==> (exists|k: int| 0 <= k < fin.len() && fin[k].0 == v)
            &&& res matches Some(v) ==> maps@.len() > 0 ==> forall|k: int|
                0 <= k < fin.len() ==> v <= #[trigger] fin[k].0
            &&& res matches Some(v) ==> maps@.len() == 0 ==> v == seeds@[0].0
        }),
{
    broadcast use vstd::seq_lib::group_to_multiset_ensures;
    let ghost mv = maps@.map_values(|m: Vec<Item>| m@);
    let mut cur: Vec<(i64, i64)> = Vec::new();
    let mut i: usize = 0;
    while i < seeds.len()
        invariant
            i <= seeds@.len(),
            cur@ == seeds@.take(i as int),
        decreases seeds@.len() - i,
    {
        cur.push(seeds[i]);
        i = i + 1;
    }
    assert(cur@ =~= seeds@);
    assert(mv.take(0) =~= Seq::<Seq<Item>>::empty());
    let mut k: usize = 0;
    while k < maps.len()
        invariant
            k <= maps@.len(),
            mv == maps@.map_values(|m: Vec<Item>| m@),
            stages_fit(seeds@, mv),
            cur@.to_multiset() == stages_spec(seeds@, mv.take(k as int)).to_multiset(),
            k > 0 ==> sorted_by_start(cur@),
            k == 0 ==> cur@ == seeds@,
        decreases maps@.len() - k,
    {
        assert(mv[k as int] == maps@[k as int]@);
        assert forall|t: int| 0 <= t < cur@.len() implies walk_fits(maps@[k as int]@, 0, #[trigger] cur@[t]) by {
            assert(cur@.contains(cur@[t]));
            assert(cur@.to_multiset().count(cur@[t]) > 0);
            assert(stages_spec(seeds@, mv.take(k as int)).to_multiset().count(cur@[t]) > 0);
            assert(stages_spec(seeds@, mv.take(k as int)).contains(cur@[t]));
        }
        let next = map_stage(&cur, &maps[k]);
        proof {
            assert(mv.take(k + 1).drop_last() =~= mv.take(k as int));
            assert(mv.take(k + 1).last() == maps@[k as int]@);
            lemma_all_pieces_perm(maps@[k as int]@, cur@, stages_spec(seeds@, mv.take(k as int)));
        }
        cur = next;
        k = k + 1;
    }
    assert(mv.take(k as int) =~= mv);
    let ghost fin = stages_spec(seeds@, mv);
    proof {
        assert(cur@.len() == fin.len()) by {
            assert(cur@.to_multiset().len() == fin.to_multiset().len());
        }
    }
    if cur.len() == 0 {
        return None;
    }
    let v = cur[0].0;
    proof {
        if k == 0 {
            assert(cur@ == fin);
        }
        let s = sorted_by_start(cur@) || k == 0;
        assert(fin.contains(cur@[0])) by {
            assert(cur@.contains(cur@[0]));
            assert(cur@.to_multiset().count(cur@[0]) > 0);
            assert(fin.to_multiset().count(cur@[0]) > 0);
        }
        let w0 = choose|w: int| 0 <= w < fin.len() && fin[w] == cur@[0];
        assert(fin[w0].0 == v);
        assert forall|t: int| 0 <= t < fin.len() implies v <= #[trigger] fin[t].0 || k == 0 by {
            if k > 0 {
                assert(fin.contains(fin[t]));
                assert(fin.to_multiset().count(fin[t]) > 0);
                assert(cur@.to_multiset().count(fin[t]) > 0);
                assert(cur@.contains(fin[t]));
                let w = choose|w: int| 0 <= w < cur@.len() && cur@[w] == fin[t];
                assert(cur@[0].0 <= cur@[w].0);
            }
        }
    }
    Some(v)
}

// ---------------------------------------------------------------------------
// Reading the almanac
// ---------------------------------------------------------------------------

/// The map lines ordered by source start, lines with equal starts keeping
/// their order (`x` put in after the last line whose start is not above its).
pub open spec fn insert_by_start(s: Seq<Item>, x: Item) -> Seq<Item>
    decreases s.len(),
{
    if s.len() == 0 || s.last().start_in <= x.start_in {
        s.push(x)
    } else {
        insert_by_start(s.drop_last(), x).push(s.last())
    }
}

/// A stable sort of map lines by source start.
pub open spec fn sort_items_spec(s: Seq<Item>) -> Seq<Item>
    decreases s.len(),
{
    if s.len() == 0 {
        s
    } else {
        insert_by_start(sort_items_spec(s.drop_last()), s.last())
    }
}

/// No line starts (at its source) below one that comes earlier.
pub open spec fn items_sorted(s: Seq<Item>) -> bool {
    forall|a: int, b: int| 0 <= a <= b < s.len() ==> (#[trigger] s[a]).start_in <= (#[trigger] s[b]).start_in
}

proof fn lemma_insert_by_start(s: Seq<Item>, x: Item)
    requires
        items_sorted(s),
    ensures
        items_sorted(insert_by_start(s, x)),
        insert_by_start(s, x).to_multiset() == s.to_multiset().insert(x),
        insert_by_start(s, x).len() == s.len() + 1,
        forall|k: int| 0 <= k < insert_by_start(s, x).len() ==> #[trigger] insert_by_start(s, x)[k] == x || s.contains(insert_by_start(s, x)[k]),
    decreases s.len(),
{
    broadcast use vstd::multiset::group_multiset_axioms;
    if s.len() == 0 || s.last().start_in <= x.start_in {
        assert forall|k: int| 0 <= k < s.len() + 1 implies #[trigger] s.push(x)[k] == x || s.contains(s.push(x)[k]) by {
            if k < s.len() {
                assert(s[k] == s.push(x)[k]);
            }
        }
        assert(items_sorted(s.push(x))) by {
            assert forall|a: int, b: int| 0 <= a <= b < s.len() + 1 implies (#[trigger] s.push(x)[a]).start_in <= (#[trigger] s.push(x)[b]).start_in by {
                if b < s.len() {
                    assert(s.push(x)[a] == s[a]);
                    assert(s.push(x)[b] == s[b]);
                } else if a < s.len() {
                    assert(s.push(x)[a] == s[a]);
                    assert(s[a].start_in <= s[s.len() - 1].start_in);
                }
            }
        }
    } else {
        let t = s.drop_last();
        let l = s.last();
        lemma_insert_by_start(t, x);
        let u = insert_by_start(t, x);
        assert(s =~= t.push(l));
        assert forall|k: int| 0 <= k < u.len() implies (#[trigger] u[k]).start_in <= l.start_in by {
            if u[k] != x {
                let m = choose|m: int| 0 <= m < t.len() && t[m] == u[k];
                assert(s[m] == t[m]);
                assert(s[s.len() - 1] == l);
            }
        }
        assert forall|k: int| 0 <= k < u.len() + 1 implies #[trigger] u.push(l)[k] == x || s.contains(u.push(l)[k]) by {
            if k == u.len() {
                assert(s[s.len() - 1] == u.push(l)[k]);
            } else {
                assert(u.push(l)[k] == u[k]);
                if u[k] != x {
                    let m = choose|m: int| 0 <= m < t.len() && t[m] == u[k];
                    assert(s[m] == t[m]);
                }
            }
        }
        assert(items_sorted(u.push(l))) by {
            assert forall|a: int, b: int| 0 <= a <= b < u.len() + 1 implies (#[trigger] u.push(l)[a]).start_in <= (#[trigger] u.push(l)[b]).start_in by {
                if b < u.len() {
                    assert(u.push(l)[a] == u[a]);
                    assert(u.push(l)[b] == u[b]);
                } else if a < u.len() {
                    assert(u.push(l)[a] == u[a]);
                }
            }
        }
    }
}

/// Sorting the map lines yields them by source start, none added or lost.
pub proof fn lemma_sort_items(s: Seq<Item>)
    ensures
        items_sorted(sort_items_spec(s)),
        sort_items_spec(s).to_multiset() == s.to_multiset(),
        sort_items_spec(s).len() == s.len(),
    decreases s.len(),
{
    broadcast use vstd::multiset::group_multiset_axioms;
    if s.len() > 0 {
        lemma_sort_items(s.drop_last());
        lemma_insert_by_start(sort_items_spec(s.drop_last()), s.last());
        assert(s =~= s.drop_last().push(s.last()));
    }
}

/// Sorts map lines by source start, stably (see `sort_items_spec`).
pub fn sort_items(v: &mut Vec<Item>)
    ensures
        final(v)@ == sort_items_spec(old(v)@),
        items_sorted(final(v)@),
        final(v)@.to_multiset() == old(v)@.to_multiset(),
{
    let ghost orig = v@;
    let n = v.len();
    let mut i: usize = 0;
    while i < n
        invariant
            i <= n,
            n == v@.len(),
            orig == old(v)@,
            orig.len() == n,
            v@.take(i as int) == sort_items_spec(orig.take(i as int)),
            v@.skip(i as int) == orig.skip(i as int),
        decreases n - i,
    {
        let x = v[i];
        let ghost prefix = v@.take(i as int);
        let ghost rest = v@.skip(i + 1);
        assert(orig[i as int] == x) by {
            assert(v@.skip(i as int)[0] == x);
        }
        let mut j: usize = i;
        assert(prefix.take(i as int) =~= prefix);
        assert(prefix.subrange(i as int, i as int) =~= Seq::<Item>::empty());
        assert(insert_by_start(prefix, x) =~= insert_by_start(prefix, x) + Seq::<Item>::empty());
        assert(v@ =~= prefix.take(j as int) + seq![x] + prefix.subrange(j as int, i as int) + rest);
        while j > 0 && v[j - 1].start_in > x.start_in
            invariant
                0 <= j <= i < n,
                n == v@.len(),
                v@ == prefix.take(j as int) + seq![x] + prefix.subrange(j as int, i as int) + rest,
                insert_by_start(prefix, x) == insert_by_start(prefix.take(j as int), x) + prefix.subrange(j as int, i as int),
                prefix.len() == i,
            decreases j,
        {
            let y = v[j - 1];
            v.set(j, y);
            v.set(j - 1, x);
            proof {
                assert(y == prefix[j - 1]);
                let pj = prefix.take(j as int);
                assert(pj.drop_last() =~= prefix.take(j - 1));
                assert(pj.last() == y);
                assert(insert_by_start(pj, x) == insert_by_start(pj.drop_last(), x).push(y));
                assert(prefix.subrange(j - 1, i as int) =~= seq![y] + prefix.subrange(j as int, i as int));
                assert(insert_by_start(prefix, x) =~= insert_by_start(prefix.take(j - 1), x) + prefix.subrange(j - 1, i as int));
                assert(v@ =~= prefix.take(j - 1) + seq![x] + prefix.subrange(j - 1, i as int) + rest);
            }
            j = j - 1;
        }
        proof {
            let pj = prefix.take(j as int);
            assert(insert_by_start(pj, x) == pj.push(x));
            assert(orig.take(i + 1).drop_last() =~= orig.take(i as int));
            assert(orig.take(i + 1).last() == x);
            assert(v@.take(i + 1) =~= insert_by_start(prefix, x));
            assert(v@.skip(i + 1) =~= orig.skip(i + 1)) by {
                assert(rest =~= orig.skip(i + 1)) by {
                    assert(orig.skip(i as int).skip(1) =~= orig.skip(i + 1));
                }
            }
        }
        i = i + 1;
    }
    assert(v@.take(n as int) =~= v@);
    assert(orig.take(n as int) =~= orig);
    proof {
        lemma_sort_items(orig);
    }
}

/// The maps read so far, by name, each as its sorted lines.
pub type Dict = Seq<(Seq<char>, Seq<Item>)>;

/// The position of the map called `name`.
pub open spec fn dict_pos(d: Dict, name: Seq<char>) -> Option<int> {
    if exists|i: int| 0 <= i < d.len() && d[i].0 == name {
        Some(choose|i: int| 0 <= i < d.len() && d[i].0 == name)
    } else {
        None
    }
}

/// The maps with `name` now standing for `items`, replacing an earlier map
/// of that name.
pub open spec fn dict_insert(d: Dict, name: Seq<char>, items: Seq<Item>) -> Dict {
    match dict_pos(d, name) {
        Some(i) => d.update(i, (name, items)),
        None => d.push((name, items)),
    }
}

/// No two maps share a name.
pub open spec fn dict_wf(d: Dict) -> bool {
    forall|i: int, j: int| 0 <= i < j < d.len() ==> (#[trigger] d[i]).0 != (#[trigger] d[j]).0
}

/// What reading the almanac has gathered: the seed ranges, the finished
/// maps, the name of the map being read, and its lines so far.
pub type AlmanacState = (Seq<(i64, i64)>, Dict, Seq<char>, Seq<Item>);

/// The seed ranges of a list of numbers, taken two at a time.
pub open spec fn seed_pairs(ns: Seq<i64>) -> Option<Seq<(i64, i64)>> {
    if ns.len() % 2 == 1 {
        None
    } else {
        Some(Seq::new(ns.len() / 2, |k: int| (ns[2 * k], ns[2 * k + 1])))
    }
}

/// One line of the almanac: `seeds: ` and numbers add seed ranges; a blank
/// line finishes the map being read; `name map:` starts a map; any other
/// line is a map line `start_out start_in length`. `None` where a number
/// does not read, the seeds do not come in pairs, or a map line has fewer
/// than three numbers.
pub open spec fn almanac_step(st: AlmanacState, line: Seq<char>) -> Option<AlmanacState> {
    let (seeds, dict, name, cur) = st;
    if "seeds: "@.is_prefix_of(line) {
        match numbers_spec(line.skip("seeds: "@.len() as int)) {
            Some(ns) => match seed_pairs(ns) {
                Some(ps) => Some((seeds + ps, dict, name, cur)),
                None => None,
            },
            None => None,
        }
    } else if trim_spec(line).len() == 0 {
        if name.len() > 0 {
            Some((seeds, dict_insert(dict, name, sort_items_spec(cur)), Seq::empty(), Seq::empty()))
        } else {
            Some(st)
        }
    } else if " map:"@.len() <= line.len() && line.skip(line.len() - " map:"@.len()) == " map:"@ {
        Some((seeds, dict, line.take(line.len() - " map:"@.len()), cur))
    } else {
        match numbers_spec(line) {
            Some(vs) => if vs.len() >= 3 {
                Some((seeds, dict, name, cur.push(Item { start_in: vs[1], start_out: vs[0], length: vs[2] })))
            } else {
                None
            },
            None => None,
        }
    }
}

/// The state after the first `k` lines.
pub open spec fn almanac_upto(ls: Seq<Seq<char>>, k: int) -> Option<AlmanacState>
    decreases k,
{
    if k <= 0 {
        Some((Seq::empty(), Seq::empty(), Seq::empty(), Seq::empty()))
    } else {
        match almanac_upto(ls, k - 1) {
            Some(st) => almanac_step(st, ls[k - 1]),
            None => None,
        }
    }
}

/// The names of the seven maps, in the order a seed goes through them.
pub open spec fn map_names() -> Seq<Seq<char>> {
    seq![
        "seed-to-soil"@,
        "soil-to-fertilizer"@,
        "fertilizer-to-water"@,
        "water-to-light"@,
        "light-to-temperature"@,
        "temperature-to-humidity"@,
        "humidity-to-location"@,
    ]
}

/// The seeds and the seven maps of the almanac, in order; `None` where a
/// line does not read or one of the seven maps is missing.
pub open spec fn almanac_spec(ls: Seq<Seq<char>>) -> Option<(Seq<(i64, i64)>, Seq<Seq<Item>>)> {
    match almanac_upto(ls, ls.len() as int) {
        Some((seeds, dict, name, cur)) => {
            let d = if name.len() > 0 && cur.len() > 0 {
                dict_insert(dict, name, sort_items_spec(cur))
            } else {
                dict
            };
            if all_maps(d) {
                Some((seeds, Seq::new(7, |k: int| d[dict_pos(d, map_names()[k])->0].1)))
            } else {
                None
            }
        },
        None => None,
    }
}

/// The maps as plain values.
pub open spec fn dict_view(d: Seq<(Vec<char>, Vec<Item>)>) -> Dict {
    d.map_values(|e: (Vec<char>, Vec<Item>)| (e.0@, e.1@))
}

proof fn lemma_dict_pos(d: Dict, name: Seq<char>, i: int)
    requires
        dict_wf(d),
        0 <= i < d.len(),
        d[i].0 == name,
    ensures
        dict_pos(d, name) == Some(i),
{
}

proof fn lemma_dict_insert_wf(d: Dict, name: Seq<char>, items: Seq<Item>)
    requires
        dict_wf(d),
    ensures
        dict_wf(dict_insert(d, name, items)),
{
    let n = dict_insert(d, name, items);
    match dict_pos(d, name) {
        Some(p) => {
            assert forall|i: int, j: int| 0 <= i < j < n.len() implies (#[trigger] n[i]).0 != (#[trigger] n[j]).0 by {
                if i != p && j != p {
                    assert(n[i] == d[i] && n[j] == d[j]);
                } else if i == p {
                    assert(n[j] == d[j]);
                    assert(d[p].0 == name);
                } else {
                    assert(n[i] == d[i]);
                    assert(d[p].0 == name);
                }
            }
        },
        None => {
            assert forall|i: int, j: int| 0 <= i < j < n.len() implies (#[trigger] n[i]).0 != (#[trigger] n[j]).0 by {
                if j < d.len() {
                    assert(n[i] == d[i] && n[j] == d[j]);
                } else {
                    assert(n[i] == d[i]);
                }
            }
        },
    }
}

/// The position of the map called `name` (see `dict_pos`).
fn dict_find(d: &Vec<(Vec<char>, Vec<Item>)>, name: &Vec<char>) -> (r: Option<usize>)
    requires
        dict_wf(dict_view(d@)),
    ensures
        match r {
            Some(i) => dict_pos(dict_view(d@), name@) == Some(i as int) && i < d@.len(),
            None => dict_pos(dict_view(d@), name@) is None,
        },
{
    let ghost dv = dict_view(d@);
    let mut i: usize = 0;
    while i < d.len()
        invariant
            i <= d@.len(),
            dv == dict_view(d@),
            dict_wf(dv),
            forall|k: int| 0 <= k < i ==> (#[trigger] dv[k]).0 != name@,
        decreases d@.len() - i,
    {
        assert(dv[i as int] == (d@[i as int].0@, d@[i as int].1@));
        if crate::text::chars_equal(&d[i].0, name) {
            proof {
                lemma_dict_pos(dv, name@, i as int);
            }
            return Some(i);
        }
        i = i + 1;
    }
    None
}

/// Puts the map `items` under `name` (see `dict_insert`).
fn dict_put(d: &mut Vec<(Vec<char>, Vec<Item>)>, name: Vec<char>, items: Vec<Item>)
    requires
        dict_wf(dict_view(old(d)@)),
    ensures
        dict_view(final(d)@) == dict_insert(dict_view(old(d)@), name@, items@),
        dict_wf(dict_view(final(d)@)),
{
    proof {
        lemma_dict_insert_wf(dict_view(d@), name@, items@);
    }
    let ghost dv = dict_view(d@);
    match dict_find(d, &name) {
        Some(i) => {
            let ghost nv = name@;
            let ghost iv = items@;
            d.set(i, (name, items));
            assert(dict_view(d@) =~= dv.update(i as int, (nv, iv)));
        },
        None => {
            let ghost nv = name@;
            let ghost iv = items@;
            d.push((name, items));
            assert(dict_view(d@) =~= dv.push((nv, iv)));
        },
    }
}

/// The seeds and the seven maps of the almanac `data`, in order (see
/// `almanac_spec`).
pub fn parse_almanac(data: &str) -> (r: Option<(Vec<(i64, i64)>, Vec<Vec<Item>>)>)
    ensures
        match r {
            Some((seeds, maps)) => almanac_spec(lines_spec(data@)) == Some(
                (seeds@, maps@.map_values(|m: Vec<Item>| m@)),
            ),
            None => almanac_spec(lines_spec(data@)) is None,
        },
{
    let chars = chars_of(data);
    let ls = lines(chars.as_slice());
    let ghost lv = rows(ls@);
    let seeds_prefix = chars_of("seeds: ");
    let map_suffix = chars_of(" map:");
    let mut seeds: Vec<(i64, i64)> = Vec::new();
    let mut dict: Vec<(Vec<char>, Vec<Item>)> = Vec::new();
    let mut name: Vec<char> = Vec::new();
    let mut cur: Vec<Item> = Vec::new();
    let mut y: usize = 0;
    while y < ls.len()
        invariant
            y <= ls@.len(),
            lv == rows(ls@),
            lv == lines_spec(data@),
            seeds_prefix@ == "seeds: "@,
            map_suffix@ == " map:"@,
            dict_wf(dict_view(dict@)),
            almanac_upto(lv, y as int) == Some((seeds@, dict_view(dict@), name@, cur@)),
        decreases ls@.len() - y,
    {
        let line = &ls[y];
        assert(lv[y as int] == line@);
        let ghost st = (seeds@, dict_view(dict@), name@, cur@);
        if starts_with(line.as_slice(), &seeds_prefix) {
            let rest = crate::text::slice_chars(line.as_slice(), seeds_prefix.len(), line.len());
            assert(rest@ == line@.skip(seeds_prefix@.len() as int));
            let ns = match parse_numbers(rest.as_slice()) {
                Some(ns) => ns,
                None => {
                    proof {
                        lemma_almanac_none(lv, y + 1);
                    }
                    return None;
                },
            };
            if ns.len() % 2 == 1 {
                proof {
                    lemma_almanac_none(lv, y + 1);
                }
                return None;
            }
            let ghost ps = seed_pairs(ns@)->0;
            let ghost old_seeds = seeds@;
            let mut k: usize = 0;
            while k < ns.len()
                invariant
                    k <= ns@.len(),
                    k % 2 == 0,
                    ns@.len() % 2 == 0,
                    ps == seed_pairs(ns@)->0,
                    seeds@ == old_seeds + ps.take(k as int / 2),
                decreases ns@.len() - k,
            {
                seeds.push((ns[k], ns[k + 1]));
                assert(ps.take((k + 2) as int / 2) =~= ps.take(k as int / 2).push(ps[k as int / 2]));
                k = k + 2;
            }
            assert(ps.take(k as int / 2) =~= ps);
        } else if trim(line.as_slice()).len() == 0 {
            if name.len() > 0 {
                let mut items = cur;
                sort_items(&mut items);
                let nm = name;
                dict_put(&mut dict, nm, items);
                name = Vec::new();
                cur = Vec::new();
            }
        } else if map_suffix.len() <= line.len() && ends_with_chars(line, &map_suffix) {
            name = crate::text::slice_chars(line.as_slice(), 0, line.len() - map_suffix.len());
            assert(name@ =~= line@.take(line@.len() - map_suffix@.len()));
        } else {
            match parse_numbers(line.as_slice()) {
                Some(vs) => {
                    if vs.len() >= 3 {
                        cur.push(Item::new(vs[1], vs[0], vs[2]));
                    } else {
                        proof {
                            lemma_almanac_none(lv, y + 1);
                        }
                        return None;
                    }
                },
                None => {
                    proof {
                        lemma_almanac_none(lv, y + 1);
                    }
                    return None;
                },
            }
        }
        y = y + 1;
    }
    let ghost d0 = dict_view(dict@);
    let ghost name0 = name@;
    let ghost cur0 = cur@;
    assert(almanac_upto(lv, lv.len() as int) == Some((seeds@, d0, name0, cur0)));
    if name.len() > 0 && cur.len() > 0 {
        let mut items = cur;
        sort_items(&mut items);
        dict_put(&mut dict, name, items);
    }
    let ghost d = dict_view(dict@);
    assert(d == (if name0.len() > 0 && cur0.len() > 0 {
        dict_insert(d0, name0, sort_items_spec(cur0))
    } else {
        d0
    }));
    proof {
        lemma_almanac_final(lv, seeds@, d0, name0, cur0, d);
    }
    let mut maps: Vec<Vec<Item>> = Vec::new();
    let mut k: usize = 0;
    while k < 7
        invariant
            k <= 7,
            d == dict_view(dict@),
            dict_wf(d),
            all_maps(d) ==> almanac_spec(lines_spec(data@)) == Some(
                (seeds@, Seq::new(7, |k: int| d[dict_pos(d, map_names()[k])->0].1)),
            ),
            !all_maps(d) ==> almanac_spec(lines_spec(data@)) is None,
            maps@.len() == k,
            forall|j: int| 0 <= j < k ==> (#[trigger] dict_pos(d, map_names()[j])) is Some && maps@[j]@ == d[dict_pos(d, map_names()[j])->0].1,
        decreases 7 - k,
    {
        let nm = map_name(k);
        match dict_find(&dict, &nm) {
            Some(i) => {
                let m = copy_items(&dict[i].1);
                assert(d[i as int] == (dict@[i as int].0@, dict@[i as int].1@));
                maps.push(m);
            },
            None => {
                return None;
            },
        }
        k = k + 1;
    }
    assert(maps@.map_values(|m: Vec<Item>| m@) =~= Seq::new(7, |k: int| d[dict_pos(d, map_names()[k])->0].1));
    Some((seeds, maps))
}

/// All seven maps are there.
pub open spec fn all_maps(d: Dict) -> bool {
    forall|k: int| 0 <= k < 7 ==> (#[trigger] dict_pos(d, map_names()[k])) is Some
}

proof fn lemma_almanac_final(
    ls: Seq<Seq<char>>,
    seeds: Seq<(i64, i64)>,
    d0: Dict,
    name0: Seq<char>,
    cur0: Seq<Item>,
    d: Dict,
)
    requires
        almanac_upto(ls, ls.len() as int) == Some((seeds, d0, name0, cur0)),
        d == (if name0.len() > 0 && cur0.len() > 0 {
            dict_insert(d0, name0, sort_items_spec(cur0))
        } else {
            d0
        }),
    ensures
        all_maps(d) ==> almanac_spec(ls) == Some((seeds, Seq::new(7, |k: int| d[dict_pos(d, map_names()[k])->0].1))),
        !all_maps(d) ==> almanac_spec(ls) is None,
{
}

proof fn lemma_almanac_none(ls: Seq<Seq<char>>, k: int)
    requires
        0 <= k <= ls.len(),
        almanac_upto(ls, k) is None,
    ensures
        almanac_upto(ls, ls.len() as int) is None,
    decreases ls.len() - k,
{
    if k < ls.len() {
        lemma_almanac_none(ls, k + 1);
    }
}

fn ends_with_chars(s: &Vec<char>, p: &Vec<char>) -> (b: bool)
    requires
        p@.len() <= s@.len(),
    ensures
        b == (s@.skip(s@.len() - p@.len()) == p@),
{
    let n = s.len();
    let off = n - p.len();
    let mut i: usize = 0;
    while i < p.len()
        invariant
            i <= p@.len(),
            n == s@.len(),
            off == s@.len() - p@.len(),
            forall|k: int| 0 <= k < i ==> s@[off + k] == p@[k],
        decreases p@.len() - i,
    {
        if s[off + i] != p[i] {
            assert(s@.skip(off as int)[i as int] != p@[i as int]);
            return false;
        }
        i = i + 1;
    }
    assert(s@.skip(off as int) =~= p@);
    true
}

fn copy_items(v: &Vec<Item>) -> (r: Vec<Item>)
    ensures
        r@ == v@,
{
    let mut r: Vec<Item> = Vec::new();
    let mut i: usize = 0;
    while i < v.len()
        invariant
            i <= v@.len(),
            r@ == v@.take(i as int),
        decreases v@.len() - i,
    {
        r.push(v[i]);
        i = i + 1;
    }
    assert(v@.take(i as int) =~= v@);
    r
}

/// The name of map number `k` (see `map_names`).
fn map_name(k: usize) -> (n: Vec<char>)
    requires
        k < 7,
    ensures
        n@ == map_names()[k as int],
{
    if k == 0 {
        chars_of("seed-to-soil")
    } else if k == 1 {
        chars_of("soil-to-fertilizer")
    } else if k == 2 {
        chars_of("fertilizer-to-water")
    } else if k == 3 {
        chars_of("water-to-light")
    } else if k == 4 {
        chars_of("light-to-temperature")
    } else if k == 5 {
        chars_of("temperature-to-humidity")
    } else {
        chars_of("humidity-to-location")
    }
}

/// Whether the arithmetic of mapping `r` through `it` stays within `i64`
/// (see `map_fits`).
fn map_fits_exec(it: Item, r: (i64, i64)) -> (b: bool)
    ensures
        b == map_fits(it, r),
{
    let sin = it.start_in as i128;
    let sout = it.start_out as i128;
    let slen = it.length as i128;
    let rin = r.0 as i128;
    let rlen = r.1 as i128;
    let lo: i128 = -0x8000_0000_0000_0000;
    let hi: i128 = 0x7fff_ffff_ffff_ffff;
    let a = sin + slen;
    let b = rin + rlen;
    let c = rin - sin;
    let d = sout + c;
    let e = rlen - (a - rin);
    lo <= a && a <= hi && lo <= b && b <= hi && lo <= c && c <= hi && lo <= d && d <= hi && lo <= e && e <= hi
}

/// Whether the walk of `r` through the map lines stays within `i64` (see
/// `walk_fits`).
pub fn walk_fits_exec(items: &Vec<Item>, r: (i64, i64)) -> (b: bool)
    ensures
        b == walk_fits(items@, 0, r),
{
    let mut cur = r;
    let mut i: usize = 0;
    while i < items.len()
        invariant
            i <= items@.len(),
            walk_fits(items@, 0, r) == walk_fits(items@, i as int, cur),
        decreases items@.len() - i,
    {
        if !map_fits_exec(items[i], cur) {
            return false;
        }
        match items[i].map(cur) {
            Mapped::Unmapped => {},
            Mapped::Full(_) => {
                return true;
            },
            Mapped::Partial(_, rest) => {
                cur = rest;
            },
        }
        i = i + 1;
    }
    true
}

/// Whether every stage can be walked within `i64` (see `stages_fit`).
pub fn stages_fit_exec(seeds: &Vec<(i64, i64)>, maps: &Vec<Vec<Item>>) -> (b: bool)
    ensures
        b == stages_fit(seeds@, maps@.map_values(|m: Vec<Item>| m@)),
{
    broadcast use vstd::seq_lib::group_to_multiset_ensures;
    let ghost mv = maps@.map_values(|m: Vec<Item>| m@);
    let mut cur: Vec<(i64, i64)> = Vec::new();
    let mut i: usize = 0;
    while i < seeds.len()
        invariant
            i <= seeds@.len(),
            cur@ == seeds@.take(i as int),
        decreases seeds@.len() - i,
    {
        cur.push(seeds[i]);
        i = i + 1;
    }
    assert(cur@ =~= seeds@);
    assert(mv.take(0) =~= Seq::<Seq<Item>>::empty());
    let mut k: usize = 0;
    while k < maps.len()
        invariant
            k <= maps@.len(),
            mv == maps@.map_values(|m: Vec<Item>| m@),
            cur@.to_multiset() == stages_spec(seeds@, mv.take(k as int)).to_multiset(),
            forall|j: int, r: (i64, i64)|
                0 <= j < k && #[trigger] stages_spec(seeds@, mv.take(j)).contains(r) ==> walk_fits(mv[j], 0, r),
        decreases maps@.len() - k,
    {
        assert(mv[k as int] == maps@[k as int]@);
        let mut t: usize = 0;
        while t < cur.len()
            invariant
                t <= cur@.len(),
                k < maps@.len(),
                mv == maps@.map_values(|m: Vec<Item>| m@),
                mv[k as int] == maps@[k as int]@,
                cur@.to_multiset() == stages_spec(seeds@, mv.take(k as int)).to_multiset(),
                forall|u: int| 0 <= u < t ==> walk_fits(mv[k as int], 0, #[trigger] cur@[u]),
            decreases cur@.len() - t,
        {
            if !walk_fits_exec(&maps[k], cur[t]) {
                proof {
                    let r = cur@[t as int];
                    assert(cur@.to_multiset().count(r) > 0);
                    assert(stages_spec(seeds@, mv.take(k as int)).to_multiset().count(r) > 0);
                    assert(stages_spec(seeds@, mv.take(k as int)).contains(r));
                }
                return false;
            }
            t = t + 1;
        }
        proof {
            assert forall|r: (i64, i64)| #[trigger] stages_spec(seeds@, mv.take(k as int)).contains(r) implies walk_fits(
                mv[k as int],
                0,
                r,
            ) by {
                assert(stages_spec(seeds@, mv.take(k as int)).to_multiset().count(r) > 0);
                assert(cur@.to_multiset().count(r) > 0);
                assert(cur@.contains(r));
                let u = choose|u: int| 0 <= u < cur@.len() && cur@[u] == r;
                assert(walk_fits(mv[k as int], 0, cur@[u]));
            }
        }
        let next = map_stage(&cur, &maps[k]);
        proof {
            lemma_all_pieces_perm(mv[k as int], cur@, stages_spec(seeds@, mv.take(k as int)));
            assert(mv.take(k + 1).drop_last() =~= mv.take(k as int));
            assert(mv.take(k + 1).last() == mv[k as int]);
        }
        cur = next;
        k = k + 1;
    }
    assert(mv.take(k as int) =~= mv);
    proof {
        assert forall|j: int, r: (i64, i64)|
            0 <= j < mv.len() && #[trigger] stages_spec(seeds@, mv.take(j)).contains(r) implies walk_fits(mv[j], 0, r) by {
        }
    }
    true
}

/// The lowest location (see `lowest_location`), where every stage can be
/// walked within `i64`; `None` where one cannot.
pub fn lowest_location_checked(seeds: &Vec<(i64, i64)>, maps: &Vec<Vec<Item>>) -> (r: Option<Option<i64>>)
    ensures
        r is Some <==> stages_fit(seeds@, maps@.map_values(|m: Vec<Item>| m@)),
        r matches Some(res) ==> ({
            let fin = stages_spec(seeds@, maps@.map_values(|m: Vec<Item>| m@));
            &&& res is None <==> fin.len() == 0
            &&& res matches Some(v) ==> (exists|k: int| 0 <= k < fin.len() && fin[k].0 == v)
            &&& res matches Some(v) ==> maps@.len() > 0 ==> forall|k: int|
                0 <= k < fin.len() ==> v <= #[trigger] fin[k].0
            &&& res matches Some(v) ==> maps@.len() == 0 ==> v == seeds@[0].0
        }),
{
    if !stages_fit_exec(seeds, maps) {
        return None;
    }
    Some(lowest_location(seeds, maps))
}

} // verus!
