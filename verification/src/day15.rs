//! Lens library: a hash of labels, and boxes of labelled lenses that steps
//! of an initialization sequence fill and empty.
use vstd::prelude::*;
use crate::text::{chars_of, chars_equal, parse_u64, rows, split_on, split_spec, trim, trim_spec, u64_literal};

verus! {

/// The hash of a label: for each character, add its code point, multiply by 17
/// and keep the remainder modulo 256.
pub open spec fn hash_spec(s: Seq<char>) -> int
    decreases s.len(),
{
    if s.len() == 0 {
        0
    } else {
        ((hash_spec(s.drop_last()) + (s.last() as u32)) * 17) % 256
    }
}

/// The hash of the characters of `s` (see `hash_spec`).
pub fn hash_chars(s: &[char]) -> (h: u64)
    ensures
        h == hash_spec(s@),
        h < 256,
{
    let mut result: u64 = 0;
    let mut i: usize = 0;
    while i < s.len()
        invariant
            i <= s@.len(),
            result == hash_spec(s@.take(i as int)),
            result < 256,
        decreases s@.len() - i,
    {
        assert(s@.take(i + 1).drop_last() =~= s@.take(i as int));
        let c = s[i] as u32;
        result = result + c as u64;
        result = result * 17;
        result = result % 256;
        i = i + 1;
    }
    assert(s@.take(i as int) =~= s@);
    result
}

/// The hash of a label (see `hash_spec`).
pub fn hhash(s: &str) -> (h: u64)
    ensures
        h == hash_spec(s@),
        h < 256,
{
    let v = chars_of(s);
    hash_chars(v.as_slice())
}

/// A lens: its label and its focal length.
pub type Lens = (Vec<char>, u64);

/// The lenses of a box as plain values.
pub open spec fn box_view(b: Seq<Lens>) -> Seq<(Seq<char>, u64)> {
    b.map_values(|e: Lens| (e.0@, e.1))
}

/// The boxes as plain values.
pub open spec fn boxes_view(bs: Seq<Vec<Lens>>) -> Seq<Seq<(Seq<char>, u64)>> {
    bs.map_values(|b: Vec<Lens>| box_view(b@))
}

/// The first position in the box of a lens labelled `l`.
pub open spec fn label_pos(b: Seq<(Seq<char>, u64)>, l: Seq<char>) -> Option<int> {
    if exists|i: int| 0 <= i < b.len() && b[i].0 == l {
        Some(choose|i: int| 0 <= i < b.len() && b[i].0 == l && forall|k: int| 0 <= k < i ==> b[k].0 != l)
    } else {
        None
    }
}

/// The box without its first lens labelled `l`, the others keeping their
/// order; the box itself where it holds none.
pub open spec fn remove_lens(b: Seq<(Seq<char>, u64)>, l: Seq<char>) -> Seq<(Seq<char>, u64)> {
    match label_pos(b, l) {
        Some(i) => b.remove(i),
        None => b,
    }
}

/// The box with the first lens labelled `l` given focal length `f` in its
/// place, or with the lens `(l, f)` put behind all others where there is none.
pub open spec fn insert_lens(b: Seq<(Seq<char>, u64)>, l: Seq<char>, f: u64) -> Seq<(Seq<char>, u64)> {
    match label_pos(b, l) {
        Some(i) => b.update(i, (l, f)),
        None => b.push((l, f)),
    }
}

/// The boxes after one step: a blank step changes nothing, `label-` removes
/// the lens from its box, `label=f` puts it in; `None` where the focal length
/// is missing or not a `u64`.
pub open spec fn step_spec(bs: Seq<Seq<(Seq<char>, u64)>>, item: Seq<char>) -> Option<Seq<Seq<(Seq<char>, u64)>>> {
    if trim_spec(item).len() == 0 {
        Some(bs)
    } else if item.last() == '-' {
        let l = item.drop_last();
        let h = hash_spec(l);
        Some(bs.update(h, remove_lens(bs[h], l)))
    } else {
        let parts = split_spec(item, '=');
        if parts.len() < 2 {
            None
        } else {
            match u64_literal(parts[1]) {
                Some(f) => {
                    let h = hash_spec(parts[0]);
                    Some(bs.update(h, insert_lens(bs[h], parts[0], f)))
                },
                None => None,
            }
        }
    }
}

/// The 256 empty boxes.
pub open spec fn empty_boxes() -> Seq<Seq<(Seq<char>, u64)>> {
    Seq::new(256, |i: int| Seq::empty())
}

/// The boxes after the first `k` steps, or `None` where one of them fails.
pub open spec fn run_spec(items: Seq<Seq<char>>, k: int) -> Option<Seq<Seq<(Seq<char>, u64)>>>
    decreases k,
{
    if k <= 0 {
        Some(empty_boxes())
    } else {
        match run_spec(items, k - 1) {
            Some(bs) => step_spec(bs, items[k - 1]),
            None => None,
        }
    }
}

/// The steps of the sequence: the pieces of `s` between newlines and commas.
pub open spec fn items_spec(s: Seq<char>) -> Seq<Seq<char>> {
    split_spec(s.map_values(|c: char| if c == '\n' { ',' } else { c }), ',')
}

/// The focusing power of the first `k` lenses of box number `i`.
pub open spec fn box_power(b: Seq<(Seq<char>, u64)>, i: int, k: int) -> int
    decreases k,
{
    if k <= 0 {
        0
    } else {
        box_power(b, i, k - 1) + (i + 1) * k * b[k - 1].1
    }
}

/// The focusing power of the first `n` boxes.
pub open spec fn boxes_power(bs: Seq<Seq<(Seq<char>, u64)>>, n: int) -> int
    decreases n,
{
    if n <= 0 {
        0
    } else {
        boxes_power(bs, n - 1) + box_power(bs[n - 1], n - 1, bs[n - 1].len() as int)
    }
}

/// The focusing power of the boxes after all steps of `s`.
pub open spec fn power_spec(s: Seq<char>) -> Option<int> {
    match run_spec(items_spec(s), items_spec(s).len() as int) {
        Some(bs) => Some(boxes_power(bs, 256)),
        None => None,
    }
}

/// Every lens sits in the box its label hashes to, and no box holds two
/// lenses of one label.
pub open spec fn boxes_wf(bs: Seq<Seq<(Seq<char>, u64)>>) -> bool {
    &&& bs.len() == 256
    &&& forall|i: int, j: int| 0 <= i < 256 && 0 <= j < bs[i].len() ==> hash_spec(#[trigger] bs[i][j].0) == i
    &&& forall|i: int, j: int, k: int|
        0 <= i < 256 && 0 <= j < k < bs[i].len() ==> #[trigger] bs[i][j].0 != #[trigger] bs[i][k].0
}

proof fn lemma_label_pos(b: Seq<(Seq<char>, u64)>, l: Seq<char>)
    ensures
        match label_pos(b, l) {
            Some(i) => 0 <= i < b.len() && b[i].0 == l && forall|k: int| 0 <= k < i ==> b[k].0 != l,
            None => forall|k: int| 0 <= k < b.len() ==> b[k].0 != l,
        },
{
    if exists|i: int| 0 <= i < b.len() && b[i].0 == l {
        let w = choose|i: int| 0 <= i < b.len() && b[i].0 == l;
        lemma_first_of(b, l, w);
    }
}

proof fn lemma_first_of(b: Seq<(Seq<char>, u64)>, l: Seq<char>, w: int)
    requires
        0 <= w < b.len(),
        b[w].0 == l,
    ensures
        exists|i: int| 0 <= i < b.len() && b[i].0 == l && forall|k: int| 0 <= k < i ==> b[k].0 != l,
    decreases w,
{
    if exists|k: int| 0 <= k < w && b[k].0 == l {
        let k = choose|k: int| 0 <= k < w && b[k].0 == l;
        lemma_first_of(b, l, k);
    } else {
        assert(0 <= w < b.len() && b[w].0 == l && forall|k: int| 0 <= k < w ==> b[k].0 != l);
    }
}

/// Each step keeps every lens in the box of its label and the labels of a
/// box distinct.
pub proof fn lemma_step_keeps_wf(bs: Seq<Seq<(Seq<char>, u64)>>, item: Seq<char>)
    requires
        boxes_wf(bs),
        step_spec(bs, item) is Some,
    ensures
        boxes_wf(step_spec(bs, item)->0),
{
    let nb = step_spec(bs, item)->0;
    if trim_spec(item).len() == 0 {
    } else if item.last() == '-' {
        let l = item.drop_last();
        let h = hash_spec(l);
        assert(0 <= h < 256) by {
            lemma_hash_range(l);
        }
        lemma_label_pos(bs[h], l);
        assert forall|i: int, j: int| 0 <= i < 256 && 0 <= j < nb[i].len() implies hash_spec(#[trigger] nb[i][j].0) == i by {
            if i == h {
                match label_pos(bs[h], l) {
                    Some(p) => {
                        if j < p {
                            assert(nb[i][j] == bs[h][j]);
                        } else {
                            assert(nb[i][j] == bs[h][j + 1]);
                        }
                    },
                    None => {},
                }
            }
        }
        assert forall|i: int, j: int, k: int| 0 <= i < 256 && 0 <= j < k < nb[i].len() implies #[trigger] nb[i][j].0
            != #[trigger] nb[i][k].0 by {
            if i == h {
                match label_pos(bs[h], l) {
                    Some(p) => {
                        let jj = if j < p { j } else { j + 1 };
                        let kk = if k < p { k } else { k + 1 };
                        assert(nb[i][j] == bs[h][jj]);
                        assert(nb[i][k] == bs[h][kk]);
                        assert(bs[h][jj].0 != bs[h][kk].0);
                    },
                    None => {},
                }
            }
        }
    } else {
        let parts = split_spec(item, '=');
        let l = parts[0];
        let f = u64_literal(parts[1])->0;
        let h = hash_spec(l);
        assert(0 <= h < 256) by {
            lemma_hash_range(l);
        }
        lemma_label_pos(bs[h], l);
        assert forall|i: int, j: int| 0 <= i < 256 && 0 <= j < nb[i].len() implies hash_spec(#[trigger] nb[i][j].0) == i by {
            if i == h {
                match label_pos(bs[h], l) {
                    Some(p) => {
                        if j != p {
                            assert(nb[i][j] == bs[h][j]);
                        }
                    },
                    None => {
                        if j < bs[h].len() {
                            assert(nb[i][j] == bs[h][j]);
                        }
                    },
                }
            }
        }
        assert forall|i: int, j: int, k: int| 0 <= i < 256 && 0 <= j < k < nb[i].len() implies #[trigger] nb[i][j].0
            != #[trigger] nb[i][k].0 by {
            if i == h {
                match label_pos(bs[h], l) {
                    Some(p) => {
                        if j != p {
                            assert(nb[i][j] == bs[h][j]);
                        }
                        if k != p {
                            assert(nb[i][k] == bs[h][k]);
                        }
                        if j != p && k != p {
                            assert(bs[h][j].0 != bs[h][k].0);
                        }
                    },
                    None => {
                        assert(nb[i][j] == bs[h][j]);
                        if k < bs[h].len() {
                            assert(nb[i][k] == bs[h][k]);
                            assert(bs[h][j].0 != bs[h][k].0);
                        }
                    },
                }
            }
        }
    }
}

/// Running any prefix of the steps leaves every lens in the box of its
/// label and the labels of each box distinct.
pub proof fn lemma_run_wf(items: Seq<Seq<char>>, k: int)
    requires
        0 <= k,
        run_spec(items, k) is Some,
    ensures
        boxes_wf(run_spec(items, k)->0),
    decreases k,
{
    if k > 0 {
        lemma_run_wf(items, k - 1);
        lemma_step_keeps_wf(run_spec(items, k - 1)->0, items[k - 1]);
    }
}

/// After `l=f`, the box of `l` holds the lens `(l, f)`; after `l-`, it holds
/// no lens labelled `l`, where the boxes were well formed before.
pub proof fn lemma_step_lookup(bs: Seq<Seq<(Seq<char>, u64)>>, item: Seq<char>)
    requires
        boxes_wf(bs),
        step_spec(bs, item) is Some,
        trim_spec(item).len() != 0,
    ensures
        item.last() == '-' ==> forall|j: int|
            0 <= j < step_spec(bs, item)->0[hash_spec(item.drop_last())].len()
                ==> (#[trigger] step_spec(bs, item)->0[hash_spec(item.drop_last())][j]).0 != item.drop_last(),
        item.last() != '-' ==> step_spec(bs, item)->0[hash_spec(split_spec(item, '=')[0])].contains(
            (split_spec(item, '=')[0], u64_literal(split_spec(item, '=')[1])->0),
        ),
{
    let nb = step_spec(bs, item)->0;
    if item.last() == '-' {
        let l = item.drop_last();
        let h = hash_spec(l);
        lemma_hash_range(l);
        lemma_label_pos(bs[h], l);
        assert forall|j: int| 0 <= j < nb[h].len() implies (#[trigger] nb[h][j]).0 != l by {
            match label_pos(bs[h], l) {
                Some(p) => {
                    if j < p {
                        assert(nb[h][j] == bs[h][j]);
                    } else {
                        assert(nb[h][j] == bs[h][j + 1]);
                        assert(bs[h][j + 1].0 != bs[h][p].0);
                    }
                },
                None => {},
            }
        }
    } else {
        let parts = split_spec(item, '=');
        let l = parts[0];
        let f = u64_literal(parts[1])->0;
        let h = hash_spec(l);
        lemma_hash_range(l);
        lemma_label_pos(bs[h], l);
        match label_pos(bs[h], l) {
            Some(p) => {
                assert(nb[h][p] == (l, f));
            },
            None => {
                assert(nb[h][bs[h].len() as int] == (l, f));
            },
        }
    }
}

proof fn lemma_hash_range(s: Seq<char>)
    ensures
        0 <= hash_spec(s) < 256,
    decreases s.len(),
{
    if s.len() > 0 {
        lemma_hash_range(s.drop_last());
    }
}


/// The position of the first lens labelled `l` in the box (see `label_pos`).
fn find_label(b: &Vec<Lens>, l: &Vec<char>) -> (r: Option<usize>)
    ensures
        match r {
            Some(i) => label_pos(box_view(b@), l@) == Some(i as int),
            None => label_pos(box_view(b@), l@) is None,
        },
{
    let ghost bv = box_view(b@);
    proof {
        lemma_label_pos(bv, l@);
    }
    let mut i: usize = 0;
    while i < b.len()
        invariant
            i <= b@.len(),
            bv == box_view(b@),
            forall|k: int| 0 <= k < i ==> bv[k].0 != l@,
            match label_pos(bv, l@) {
                Some(p) => 0 <= p < bv.len() && bv[p].0 == l@ && forall|k: int| 0 <= k < p ==> bv[k].0 != l@,
                None => forall|k: int| 0 <= k < bv.len() ==> bv[k].0 != l@,
            },
        decreases b@.len() - i,
    {
        assert(bv[i as int] == (b@[i as int].0@, b@[i as int].1));
        if chars_equal(&b[i].0, l) {
            return Some(i);
        }
        i = i + 1;
    }
    None
}

/// Whether the item is blank, as `str::trim` sees it.
fn is_blank(item: &Vec<char>) -> (b: bool)
    ensures
        b == (trim_spec(item@).len() == 0),
        !b ==> item@.len() > 0,
{
    let t = trim(item.as_slice());
    proof {
        if item@.len() == 0 {
            assert(trim_spec(item@) =~= Seq::<char>::empty());
        }
    }
    t.len() == 0
}

/// Carries out one step on the boxes (see `step_spec`); `false`, with the
/// boxes as they were, where the step fails.
pub fn apply_step(boxes: &mut Vec<Vec<Lens>>, item: &Vec<char>) -> (ok: bool)
    requires
        old(boxes)@.len() == 256,
    ensures
        final(boxes)@.len() == 256,
        ok == step_spec(boxes_view(old(boxes)@), item@) is Some,
        ok ==> boxes_view(final(boxes)@) == step_spec(boxes_view(old(boxes)@), item@)->0,
        !ok ==> final(boxes)@ == old(boxes)@,
{
    let ghost bs = boxes_view(boxes@);
    if is_blank(item) {
        return true;
    }
    let n = item.len();
    let (label, f) = if item[n - 1] == '-' {
        let mut label: Vec<char> = Vec::new();
        let mut k: usize = 0;
        while k + 1 < n
            invariant
                k + 1 <= n,
                n == item@.len(),
                label@ == item@.take(k as int),
            decreases n - k,
        {
            label.push(item[k]);
            k = k + 1;
        }
        assert(label@ =~= item@.drop_last());
        (label, None)
    } else {
        let parts = split_on(item.as_slice(), '=');
        if parts.len() < 2 {
            return false;
        }
        assert(rows(parts@)[1] == parts@[1]@);
        assert(rows(parts@)[0] == parts@[0]@);
        let f = match parse_u64(parts[1].as_slice()) {
            Some(f) => f,
            None => {
                return false;
            },
        };
        let mut label: Vec<char> = Vec::new();
        let p0 = &parts[0];
        let mut k: usize = 0;
        while k < p0.len()
            invariant
                k <= p0@.len(),
                label@ == p0@.take(k as int),
            decreases p0@.len() - k,
        {
            label.push(p0[k]);
            k = k + 1;
        }
        assert(label@ =~= p0@);
        (label, Some(f))
    };
    let h = hash_chars(label.as_slice()) as usize;
    let mut bx: Vec<Lens> = Vec::new();
    std::mem::swap(&mut bx, &mut boxes[h]);
    let ghost old_box = bx@;
    assert(box_view(old_box) == bs[h as int]);
    let pos = find_label(&bx, &label);
    proof {
        lemma_label_pos(box_view(old_box), label@);
    }
    match f {
        None => {
            match pos {
                Some(i) => {
                    bx.remove(i);
                    assert(box_view(bx@) =~= box_view(old_box).remove(i as int));
                },
                None => {},
            }
        },
        Some(fv) => {
            match pos {
                Some(i) => {
                    bx.set(i, (label, fv));
                    assert(box_view(bx@) =~= box_view(old_box).update(i as int, (label@, fv)));
                },
                None => {
                    bx.push((label, fv));
                    assert(box_view(bx@) =~= box_view(old_box).push((label@, fv)));
                },
            }
        },
    }
    let ghost nb = box_view(bx@);
    std::mem::swap(&mut bx, &mut boxes[h]);
    assert(boxes_view(boxes@) =~= bs.update(h as int, nb));
    true
}

/// Runs every step of `data` from empty boxes; `None` where a step fails.
pub fn run_steps(data: &str) -> (r: Option<Vec<Vec<Lens>>>)
    ensures
        match r {
            Some(bs) => bs@.len() == 256 && run_spec(items_spec(data@), items_spec(data@).len() as int) == Some(
                boxes_view(bs@),
            ),
            None => run_spec(items_spec(data@), items_spec(data@).len() as int) is None,
        },
{
    let chars = chars_of(data);
    let mut mapped: Vec<char> = Vec::new();
    let mut i: usize = 0;
    while i < chars.len()
        invariant
            i <= chars@.len(),
            mapped@ == chars@.take(i as int).map_values(|c: char| if c == '\n' { ',' } else { c }),
        decreases chars@.len() - i,
    {
        let c = chars[i];
        mapped.push(if c == '\n' { ',' } else { c });
        assert(chars@.take(i + 1).map_values(|c: char| if c == '\n' { ',' } else { c }) =~= chars@.take(
            i as int,
        ).map_values(|c: char| if c == '\n' { ',' } else { c }).push(if c == '\n' { ',' } else { c }));
        i = i + 1;
    }
    assert(chars@.take(i as int) =~= data@);
    let items = split_on(mapped.as_slice(), ',');
    let ghost iv = rows(items@);
    assert(iv == items_spec(data@));
    let mut boxes: Vec<Vec<Lens>> = Vec::new();
    let mut b: usize = 0;
    while b < 256
        invariant
            b <= 256,
            boxes@.len() == b,
            forall|k: int| 0 <= k < b ==> (#[trigger] boxes@[k])@.len() == 0,
        decreases 256 - b,
    {
        boxes.push(Vec::new());
        b = b + 1;
    }
    assert forall|k: int| 0 <= k < 256 implies #[trigger] boxes_view(boxes@)[k] == empty_boxes()[k] by {
        assert(box_view(boxes@[k]@) =~= Seq::<(Seq<char>, u64)>::empty());
    }
    assert(boxes_view(boxes@) =~= empty_boxes());
    let mut k: usize = 0;
    while k < items.len()
        invariant
            k <= items@.len(),
            iv == rows(items@),
            iv == items_spec(data@),
            boxes@.len() == 256,
            run_spec(iv, k as int) == Some(boxes_view(boxes@)),
        decreases items@.len() - k,
    {
        assert(iv[k as int] == items@[k as int]@);
        if !apply_step(&mut boxes, &items[k]) {
            assert(run_spec(iv, k + 1) is None);
            proof {
                lemma_run_none(iv, k + 1);
            }
            return None;
        }
        k = k + 1;
    }
    Some(boxes)
}

proof fn lemma_run_none(items: Seq<Seq<char>>, k: int)
    requires
        0 <= k <= items.len(),
        run_spec(items, k) is None,
    ensures
        run_spec(items, items.len() as int) is None,
    decreases items.len() - k,
{
    if k < items.len() {
        lemma_run_none(items, k + 1);
    }
}

proof fn lemma_box_power_nonneg(b: Seq<(Seq<char>, u64)>, i: int, k: int)
    requires
        0 <= i,
    ensures
        0 <= box_power(b, i, k),
    decreases k,
{
    if k > 0 {
        lemma_box_power_nonneg(b, i, k - 1);
        let f = b[k - 1].1;
        assert((i + 1) * k * f >= 0) by (nonlinear_arith)
            requires
                i >= 0,
                k >= 0,
                f >= 0,
        ;
    }
}

proof fn lemma_box_power_mono(b: Seq<(Seq<char>, u64)>, i: int, k: int, m: int)
    requires
        0 <= i,
        0 <= k <= m,
    ensures
        0 <= box_power(b, i, k) <= box_power(b, i, m),
    decreases m,
{
    lemma_box_power_nonneg(b, i, k);
    if m > k {
        lemma_box_power_mono(b, i, k, m - 1);
        let f = b[m - 1].1;
        assert((i + 1) * m * f >= 0) by (nonlinear_arith)
            requires
                i >= 0,
                m >= 0,
                f >= 0,
        ;
    }
}

proof fn lemma_boxes_power_nonneg(bs: Seq<Seq<(Seq<char>, u64)>>, n: int)
    ensures
        0 <= boxes_power(bs, n),
    decreases n,
{
    if n > 0 {
        lemma_boxes_power_nonneg(bs, n - 1);
        lemma_box_power_nonneg(bs[n - 1], n - 1, bs[n - 1].len() as int);
    }
}

proof fn lemma_boxes_power_mono(bs: Seq<Seq<(Seq<char>, u64)>>, n: int, m: int)
    requires
        0 <= n <= m,
    ensures
        0 <= boxes_power(bs, n) <= boxes_power(bs, m),
    decreases m,
{
    lemma_boxes_power_nonneg(bs, n);
    if m > n {
        lemma_boxes_power_mono(bs, n, m - 1);
        lemma_box_power_nonneg(bs[m - 1], m - 1, bs[m - 1].len() as int);
    }
}

/// The focusing power of the boxes (see `boxes_power`); `None` where it
/// exceeds `u64::MAX`.
pub fn focusing_power_of(boxes: &Vec<Vec<Lens>>) -> (r: Option<u64>)
    requires
        boxes@.len() == 256,
    ensures
        match r {
            Some(v) => v == boxes_power(boxes_view(boxes@), 256),
            None => boxes_power(boxes_view(boxes@), 256) > u64::MAX,
        },
{
    let ghost bs = boxes_view(boxes@);
    let mut result: u64 = 0;
    let mut i: usize = 0;
    while i < 256
        invariant
            i <= 256,
            boxes@.len() == 256,
            bs == boxes_view(boxes@),
            result == boxes_power(bs, i as int),
        decreases 256 - i,
    {
        let bx = &boxes[i];
        assert(bs[i as int] == box_view(bx@));
        let mut li: usize = 0;
        let mut item: u64 = 0;
        while li < bx.len()
            invariant
                i < 256,
                li <= bx@.len(),
                boxes@.len() == 256,
                bs == boxes_view(boxes@),
                bs[i as int] == box_view(bx@),
                result == boxes_power(bs, i as int),
                item == box_power(bs[i as int], i as int, li as int),
                result + item <= u64::MAX,
            decreases bx@.len() - li,
        {
            let f = bx[li].1;
            assert(bs[i as int][li as int].1 == f);
            proof {
                lemma_box_power_mono(bs[i as int], i as int, li + 1, bs[i as int].len() as int);
                lemma_boxes_power_mono(bs, i + 1, 256);
                assert(box_power(bs[i as int], i as int, li + 1) == item + (i + 1) * (li + 1) * f);
            }
            if f != 0 {
                let a = (i as u64 + 1).checked_mul(li as u64 + 1);
                let term = match a {
                    Some(a) => a.checked_mul(f),
                    None => None,
                };
                match term {
                    Some(t) => {
                        match item.checked_add(t) {
                            Some(v) => {
                                if result.checked_add(v).is_none() {
                                    return None;
                                }
                                item = v;
                            },
                            None => {
                                return None;
                            },
                        }
                    },
                    None => {
                        proof {
                            assert((i + 1) * (li + 1) * f >= (i + 1) * (li + 1)) by (nonlinear_arith)
                                requires
                                    f >= 1,
                                    i + 1 >= 1,
                                    li + 1 >= 1,
                            ;
                        }
                        return None;
                    },
                }
            } else {
                assert((i + 1) * (li + 1) * f == 0) by (nonlinear_arith)
                    requires
                        f == 0,
                ;
            }
            li = li + 1;
        }
        assert(bx@.len() == bs[i as int].len());
        result = result + item;
        i = i + 1;
    }
    Some(result)
}

/// The focusing power after all steps of `data` (see `power_spec`); `None`
/// where a step fails or the power exceeds `u64::MAX`.
pub fn focusing_power(data: &str) -> (r: Option<u64>)
    ensures
        match r {
            Some(v) => power_spec(data@) == Some(v as int),
            None => power_spec(data@) is None || power_spec(data@)->0 > u64::MAX,
        },
{
    match run_steps(data) {
        Some(boxes) => focusing_power_of(&boxes),
        None => None,
    }
}

} // verus!
