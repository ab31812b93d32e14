//! Workflows that sort parts by their four ratings: parsing the workflow
//! list, enumerating every chain of steps that ends in acceptance, and the
//! rating ranges each such chain allows.
use vstd::prelude::*;
use crate::text::{
    all_digits, find_char, first_index, i64_literal, is_digit, lines, lines_spec, parse_i64,
    slice_chars, split_on, split_spec, trim, trim_spec, rows, chars_equal,
};

verus! {

/// A machine part with its four ratings.
#[derive(Debug, Copy, Clone, PartialEq, Eq)]
pub struct Part {
    pub x: i64,
    pub m: i64,
    pub a: i64,
    pub s: i64,
}

impl Part {
    pub fn new(x: i64, m: i64, a: i64, s: i64) -> (p: Part)
        ensures
            p == (Part { x, m, a, s }),
    {
        Part { x, m, a, s }
    }
}

/// One optional value per rating, in the order x, m, a, s.
pub type Ratings = (Option<i64>, Option<i64>, Option<i64>, Option<i64>);

/// The test of a workflow step: none, or "rating < value", or
/// "rating > value"; the rating tested is the one whose slot holds a value.
#[derive(Debug, Copy, Clone)]
pub enum Condition {
    NoCheck,
    CheckLess(Ratings),
    CheckGreater(Ratings),
}

/// Where a step sends a part whose rating passes the step's test.
#[derive(Debug, Clone)]
pub enum RuleAction {
    Jump(Vec<char>),
    Accept,
    Reject,
}

/// The contents of a [`RuleAction`].
pub enum ActionView {
    Jump(Seq<char>),
    Accept,
    Reject,
}

impl View for RuleAction {
    type V = ActionView;

    open spec fn view(&self) -> ActionView {
        match self {
            RuleAction::Jump(n) => ActionView::Jump(n@),
            RuleAction::Accept => ActionView::Accept,
            RuleAction::Reject => ActionView::Reject,
        }
    }
}

#[derive(Debug, Clone)]
pub struct RuleStep {
    pub cond: Condition,
    pub action: RuleAction,
}

/// A named workflow: its steps are tried in order.
#[derive(Debug, Clone)]
pub struct Rule {
    pub name: Vec<char>,
    pub steps: Vec<RuleStep>,
}

/// Adds `add` to every rating that is present.
pub fn optadd(vals: Ratings, add: i64) -> (res: Ratings)
    requires
        vals.0 matches Some(x) ==> i64::MIN <= x + add <= i64::MAX,
        vals.1 matches Some(x) ==> i64::MIN <= x + add <= i64::MAX,
        vals.2 matches Some(x) ==> i64::MIN <= x + add <= i64::MAX,
        vals.3 matches Some(x) ==> i64::MIN <= x + add <= i64::MAX,
    ensures
        res.0 == (match vals.0 { Some(x) => Some((x + add) as i64), None => None }),
        res.1 == (match vals.1 { Some(x) => Some((x + add) as i64), None => None }),
        res.2 == (match vals.2 { Some(x) => Some((x + add) as i64), None => None }),
        res.3 == (match vals.3 { Some(x) => Some((x + add) as i64), None => None }),
{
    let mut res: Ratings = (None, None, None, None);
    if let Some(x) = vals.0 {
        res.0 = Some(x + add);
    }
    if let Some(x) = vals.1 {
        res.1 = Some(x + add);
    }
    if let Some(x) = vals.2 {
        res.2 = Some(x + add);
    }
    if let Some(x) = vals.3 {
        res.3 = Some(x + add);
    }
    res
}

// ---------------------------------------------------------------------------
// Workflows as a tree of step chains
// ---------------------------------------------------------------------------

/// The index of the workflow called `name`; where several share the name, the
/// last one counts (a later definition replaces an earlier one).
pub open spec fn rule_index(rules: Seq<Rule>, name: Seq<char>) -> Option<int>
    decreases rules.len(),
{
    if rules.len() == 0 {
        None
    } else if rules.last().name@ == name {
        Some(rules.len() - 1)
    } else {
        rule_index(rules.drop_last(), name)
    }
}

/// `rule_index` finds the last workflow of that name, or says there is none.
pub proof fn lemma_rule_index_bounds(rules: Seq<Rule>, name: Seq<char>)
    ensures
        rule_index(rules, name) matches Some(i) ==> 0 <= i < rules.len() && rules[i].name@
            == name,
        rule_index(rules, name) matches Some(i) ==> forall|j: int|
            i < j < rules.len() ==> rules[j].name@ != name,
        rule_index(rules, name) is None ==> forall|j: int|
            0 <= j < rules.len() ==> rules[j].name@ != name,
    decreases rules.len(),
{
    if rules.len() > 0 {
        lemma_rule_index_bounds(rules.drop_last(), name);
        assert forall|j: int| 0 <= j < rules.len() - 1 implies rules.drop_last()[j] == rules[j] by {}
    }
}

pub open spec fn step_at(rules: Seq<Rule>, r: int, k: int) -> RuleStep {
    rules[r].steps@[k]
}

pub open spec fn has_condition(c: Condition) -> bool {
    !(c matches Condition::NoCheck)
}

/// Every workflow has steps, its last step has no test, and every jump names
/// a workflow that exists.
pub open spec fn rules_closed(rules: Seq<Rule>) -> bool {
    forall|r: int|
        0 <= r < rules.len() ==> {
            &&& (#[trigger] rules[r]).steps@.len() > 0
            &&& !has_condition(rules[r].steps@.last().cond)
            &&& forall|k: int|
                0 <= k < rules[r].steps@.len() ==> ((#[trigger] rules[r].steps@[k]).action@ matches ActionView::Jump(n) ==> rule_index(rules, n) is Some)
        }
}

/// A chain of (workflow, step) pairs from the start workflow: within each
/// workflow the steps before the chosen one were skipped (so each has a
/// test), and each chosen step but the last jumps to the next workflow.
pub open spec fn valid_path(rules: Seq<Rule>, start: int, p: Seq<(usize, usize)>) -> bool {
    &&& p.len() >= 1
    &&& p[0].0 == start
    &&& forall|j: int|
        0 <= j < p.len() ==> {
            &&& (#[trigger] p[j]).0 < rules.len()
            &&& p[j].1 < rules[p[j].0 as int].steps@.len()
            &&& forall|l: int|
                0 <= l < p[j].1 ==> has_condition(
                    #[trigger] rules[p[j].0 as int].steps@[l].cond,
                )
        }
    &&& forall|j: int|
        0 <= j < p.len() - 1 ==> (step_at(rules, (#[trigger] p[j]).0 as int, p[j].1 as int).action@ matches ActionView::Jump(
            n,
        ) && rule_index(rules, n) == Some(p[j + 1].0 as int))
}

/// A chain that ends in a step that accepts the part.
pub open spec fn accept_path(rules: Seq<Rule>, start: int, p: Seq<(usize, usize)>) -> bool {
    &&& valid_path(rules, start, p)
    &&& step_at(rules, p.last().0 as int, p.last().1 as int).action@ matches ActionView::Accept
}

/// `q` is `p` or a chain that continues from it: it agrees with `p` up to the
/// last workflow of `p`, and in that workflow it chose the same step or a later one.
pub open spec fn extends(p: Seq<(usize, usize)>, q: Seq<(usize, usize)>) -> bool {
    &&& q.len() >= p.len() >= 1
    &&& q.take(p.len() - 1) == p.take(p.len() - 1)
    &&& q[p.len() - 1].0 == p.last().0
    &&& q[p.len() - 1].1 >= p.last().1
}

pub open spec fn paths_view(v: Seq<Vec<(usize, usize)>>) -> Seq<Seq<(usize, usize)>> {
    v.map_values(|x: Vec<(usize, usize)>| x@)
}

proof fn lemma_extends_decompose(rules: Seq<Rule>, start: int, p: Seq<(usize, usize)>, q: Seq<(usize, usize)>)
    requires
        valid_path(rules, start, p),
        valid_path(rules, start, q),
        extends(p, q),
        q != p,
    ensures
        ({
            let r = p.last().0 as int;
            let k = p.last().1 as int;
            ||| (has_condition(step_at(rules, r, k).cond) && extends(
                p.update(p.len() - 1, (p.last().0, (p.last().1 + 1) as usize)),
                q,
            ))
            ||| (q.len() > p.len() && q[p.len() - 1].1 == k && (step_at(rules, r, k).action@ matches ActionView::Jump(n) && rule_index(rules, n) == Some(q[p.len() as int].0 as int)) && extends(
                p.push((q[p.len() as int].0, 0usize)),
                q,
            ))
        }),
{
    let n = p.len() - 1;
    let r = p.last().0 as int;
    let k = p.last().1 as int;
    let p1 = p.update(n, (p.last().0, (p.last().1 + 1) as usize));
    assert(p1.take(n) =~= p.take(n));
    if q[n].1 > k {
        assert(q[n] == q[n]);
        assert(has_condition(rules[q[n].0 as int].steps@[k].cond));
    } else {
        assert(q[n].1 == k);
        if q.len() == p.len() {
            assert(q =~= p) by {
                assert forall|i: int| 0 <= i < q.len() implies q[i] == p[i] by {
                    if i < n {
                        assert(q.take(n)[i] == p.take(n)[i]);
                    }
                }
            }
        } else {
            assert(q[n] == q[n]);
            let p2 = p.push((q[n + 1].0, 0usize));
            assert(q.take(p2.len() - 1) =~= p2.take(p2.len() - 1)) by {
                assert forall|i: int| 0 <= i < p.len() implies q[i] == p2[i] by {
                    if i < n {
                        assert(q.take(n)[i] == p.take(n)[i]);
                    } else {
                        assert(q[n].0 == p[n].0);
                    }
                }
            }
        }
    }
}

proof fn lemma_extends_sub(p: Seq<(usize, usize)>, c: Seq<(usize, usize)>, q: Seq<(usize, usize)>)
    requires
        p.len() >= 1,
        p.last().1 < usize::MAX,
        extends(c, q),
        (c == p.update(p.len() - 1, (p.last().0, (p.last().1 + 1) as usize))) || (c.len() == p.len()
            + 1 && c.take(p.len() as int) == p),
    ensures
        extends(p, q),
{
    let n = p.len() - 1;
    if c.len() == p.len() {
        assert(c.take(n) =~= p.take(n));
        assert(c.last() == c[n]);
    } else {
        assert(q.take(n) =~= p.take(n)) by {
            assert forall|i: int| 0 <= i < n implies q.take(n)[i] == p.take(n)[i] by {
                assert(q.take(c.len() - 1)[i] == c.take(c.len() - 1)[i]);
                assert(c.take(p.len() as int)[i] == p[i]);
            }
        }
        assert(q.take(c.len() - 1)[n] == c.take(c.len() - 1)[n]);
        assert(c.take(p.len() as int)[n] == p[n]);
    }
}

/// A copy of a chain.
fn copy_path(p: &Vec<(usize, usize)>) -> (c: Vec<(usize, usize)>)
    ensures
        c@ == p@,
{
    let mut c: Vec<(usize, usize)> = Vec::new();
    let mut i: usize = 0;
    while i < p.len()
        invariant
            i <= p@.len(),
            c@ == p@.take(i as int),
        decreases p@.len() - i,
    {
        c.push(p[i]);
        i = i + 1;
    }
    assert(c@ =~= p@);
    c
}

/// The index of the workflow called `name` (the last one of that name).
pub fn find_rule(rules: &Vec<Rule>, name: &Vec<char>) -> (res: Option<usize>)
    ensures
        match res {
            Some(i) => rule_index(rules@, name@) == Some(i as int),
            None => rule_index(rules@, name@) is None,
        },
{
    let mut i = rules.len();
    assert(rules@.take(i as int) =~= rules@);
    while i > 0
        invariant
            i <= rules@.len(),
            rule_index(rules@, name@) == rule_index(rules@.take(i as int), name@),
        decreases i,
    {
        let ghost t = rules@.take(i as int);
        assert(t.drop_last() =~= rules@.take(i - 1));
        if chars_equal(&rules[i - 1].name, name) {
            return Some(i - 1);
        }
        i = i - 1;
    }
    assert(rules@.take(0) =~= Seq::<Rule>::empty());
    None
}

/// Every accepting chain that extends `p`, each once; `None` when some chain
/// extending `p` is longer than there are workflows, which happens exactly
/// when the chains never end.
fn collect_accepting(rules: &Vec<Rule>, start: usize, p: Vec<(usize, usize)>) -> (res: Option<
    Vec<Vec<(usize, usize)>>,
>)
    requires
        rules_closed(rules@),
        valid_path(rules@, start as int, p@),
    ensures
        res matches Some(v) ==> forall|q: Seq<(usize, usize)>|
            #![trigger paths_view(v@).contains(q)]
            #![trigger accept_path(rules@, start as int, q)]
            paths_view(v@).contains(q) <==> (accept_path(rules@, start as int, q) && extends(
                p@,
                q,
            )),
        res matches Some(v) ==> paths_view(v@).no_duplicates(),
        res matches Some(v) ==> forall|q: Seq<(usize, usize)>|
            valid_path(rules@, start as int, q) && extends(p@, q) ==> q.len() <= rules@.len(),
        res is None ==> exists|q: Seq<(usize, usize)>|
            valid_path(rules@, start as int, q) && extends(p@, q) && q.len() > rules@.len(),
    decreases rules@.len() + 1 - p@.len(), rules@[p@.last().0 as int].steps@.len() - p@.last().1,
{
    let ghost rs = rules@;
    let ghost st = start as int;
    assert(extends(p@, p@));
    if p.len() > rules.len() {
        return None;
    }
    let n = p.len() - 1;
    let (r, k) = p[n];
    assert(p@[n as int] == (r, k));
    assert(r < rules@.len() && k < rules@[r as int].steps@.len());
    let nsteps = rules[r].steps.len();
    assert(k < nsteps);
    let step = &rules[r].steps[k];
    let mut res: Vec<Vec<(usize, usize)>> = Vec::new();
    let is_accept = match step.action {
        RuleAction::Accept => true,
        _ => false,
    };
    if is_accept {
        res.push(copy_path(&p));
    }
    let ghost a_part = paths_view(res@);
    assert(is_accept ==> accept_path(rs, st, p@));
    assert(is_accept ==> a_part =~= seq![p@]);
    assert(!is_accept ==> a_part =~= Seq::<Seq<(usize, usize)>>::empty());
    assert(a_part.len() <= 1);
    assert(a_part.len() == 1 ==> a_part[0] == p@);
    // the chains that skip this step
    let ghost mut s1: Seq<Seq<(usize, usize)>> = Seq::empty();
    let ghost mut p1v: Seq<(usize, usize)> = Seq::empty();
    if has_cond(&step.cond) {
        let mut p1 = copy_path(&p);
        p1.set(n, (r, k + 1));
        proof {
            p1v = p1@;
            assert(valid_path(rs, st, p1@)) by {
                assert forall|j: int| 0 <= j < p1@.len() - 1 implies (step_at(
                    rs,
                    (#[trigger] p1@[j]).0 as int,
                    p1@[j].1 as int,
                ).action@ matches ActionView::Jump(nm) && rule_index(rs, nm) == Some(
                    p1@[j + 1].0 as int,
                )) by {
                    assert(p@[j] == p1@[j]);
                    if j + 1 < n {
                        assert(p@[j + 1] == p1@[j + 1]);
                    }
                }
                assert forall|j: int| 0 <= j < p1@.len() implies {
                    &&& (#[trigger] p1@[j]).0 < rs.len()
                    &&& p1@[j].1 < rs[p1@[j].0 as int].steps@.len()
                    &&& forall|l: int|
                        0 <= l < p1@[j].1 ==> has_condition(
                            #[trigger] rs[p1@[j].0 as int].steps@[l].cond,
                        )
                } by {
                    if j == n {
                        assert(rs[r as int].steps@.last().cond == rs[r as int].steps@[rs[r as int].steps@.len() - 1].cond);
                        if k + 1 == rs[r as int].steps@.len() {
                            assert(false);
                        }
                        assert forall|l: int| 0 <= l < p1@[j].1 implies has_condition(
                            #[trigger] rs[p1@[j].0 as int].steps@[l].cond,
                        ) by {
                            if l < k {
                                assert(p@[j] == p@[n as int]);
                            }
                        }
                    } else {
                        assert(p@[j] == p1@[j]);
                    }
                }
            }
        }
        match collect_accepting(rules, start, p1) {
            None => {
                proof {
                    let q = choose|q: Seq<(usize, usize)>|
                        valid_path(rs, st, q) && extends(p1v, q) && q.len() > rs.len();
                    lemma_extends_sub(p@, p1v, q);
                }
                return None;
            },
            Some(mut v1) => {
                proof {
                    s1 = paths_view(v1@);
                }
                let ghost before = res@;
                res.append(&mut v1);
                assert(paths_view(res@) =~= paths_view(before) + s1);
            },
        }
    }
    // the chains that take this step and jump to another workflow
    let ghost mut s2: Seq<Seq<(usize, usize)>> = Seq::empty();
    let ghost mut p2v: Seq<(usize, usize)> = Seq::empty();
    let ghost mut has_jump = false;
    let ghost mut dest: int = 0;
    if let RuleAction::Jump(name) = &step.action {
        proof {
            assert(rs[r as int].steps@[k as int].action@ matches ActionView::Jump(nm) && nm == name@);
            lemma_rule_index_bounds(rs, name@);
        }
        let d = match find_rule(rules, name) {
            Some(d) => d,
            None => {
                assert(false);
                0
            },
        };
        let mut p2 = copy_path(&p);
        p2.push((d, 0));
        proof {
            has_jump = true;
            dest = d as int;
            p2v = p2@;
            assert(p2@.take(p@.len() as int) =~= p@);
            assert(valid_path(rs, st, p2@)) by {
                assert forall|j: int| 0 <= j < p2@.len() - 1 implies (step_at(
                    rs,
                    (#[trigger] p2@[j]).0 as int,
                    p2@[j].1 as int,
                ).action@ matches ActionView::Jump(nm) && rule_index(rs, nm) == Some(
                    p2@[j + 1].0 as int,
                )) by {
                    assert(p@[j] == p2@[j]);
                    if j + 1 < p@.len() {
                        assert(p@[j + 1] == p2@[j + 1]);
                    }
                }
                assert forall|j: int| 0 <= j < p2@.len() implies {
                    &&& (#[trigger] p2@[j]).0 < rs.len()
                    &&& p2@[j].1 < rs[p2@[j].0 as int].steps@.len()
                    &&& forall|l: int|
                        0 <= l < p2@[j].1 ==> has_condition(
                            #[trigger] rs[p2@[j].0 as int].steps@[l].cond,
                        )
                } by {
                    if j < p@.len() {
                        assert(p@[j] == p2@[j]);
                    } else {
                        assert(rs[d as int] == rs[d as int]);
                    }
                }
            }
        }
        match collect_accepting(rules, start, p2) {
            None => {
                proof {
                    let q = choose|q: Seq<(usize, usize)>|
                        valid_path(rs, st, q) && extends(p2v, q) && q.len() > rs.len();
                    lemma_extends_sub(p@, p2v, q);
                }
                return None;
            },
            Some(mut v2) => {
                proof {
                    s2 = paths_view(v2@);
                }
                let ghost before = res@;
                res.append(&mut v2);
                assert(paths_view(res@) =~= paths_view(before) + s2);
            },
        }
    }
    proof {
        broadcast use vstd::seq_lib::group_seq_properties;
        let all = paths_view(res@);
        assert(all =~= a_part + s1 + s2);
        let p1 = p@.update(n as int, (r, (k + 1) as usize));
        // membership
        assert forall|q: Seq<(usize, usize)>| #[trigger] all.contains(q) implies (accept_path(
            rs,
            st,
            q,
        ) && extends(p@, q)) by {
            if a_part.contains(q) {
                assert(q == p@);
            } else if s1.contains(q) {
                lemma_extends_sub(p@, p1v, q);
            } else {
                assert(s2.contains(q));
                lemma_extends_sub(p@, p2v, q);
            }
        }
        assert forall|q: Seq<(usize, usize)>|
            accept_path(rs, st, q) && extends(p@, q) implies #[trigger] all.contains(q) by {
            if q == p@ {
                assert(a_part[0] == q);
                assert(a_part.contains(q));
            } else {
                lemma_extends_decompose(rs, st, p@, q);
                if has_condition(step_at(rs, r as int, k as int).cond) && extends(p1, q) {
                    assert(p1 =~= p1v);
                    assert(s1.contains(q));
                } else {
                    assert(p@.push((q[p@.len() as int].0, 0usize)) =~= p2v);
                    assert(s2.contains(q));
                }
            }
        }
        // length bound
        assert forall|q: Seq<(usize, usize)>|
            valid_path(rs, st, q) && extends(p@, q) implies q.len() <= rs.len() by {
            if q != p@ {
                lemma_extends_decompose(rs, st, p@, q);
                if has_condition(step_at(rs, r as int, k as int).cond) && extends(p1, q) {
                    assert(p1 =~= p1v);
                } else {
                    assert(p@.push((q[p@.len() as int].0, 0usize)) =~= p2v);
                }
            }
        }
        // no duplicates
        assert forall|i: int, j: int|
            0 <= i < all.len() && 0 <= j < all.len() && i != j implies all[i] != all[j] by {
            let x = all[i];
            let y = all[j];
            if x == y {
                let an = a_part.len() as int;
                let s1n = s1.len() as int;
                if i < an && j < an {
                } else if i < an || j < an {
                    // p itself is not in the other parts
                    let other = if i < an { y } else { x };
                    let oi = if i < an { j } else { i };
                    if oi < an + s1n {
                        assert(s1[oi - an] == other);
                        assert(s1.contains(other));
                        assert(extends(p1v, other));
                        assert(other[n as int].1 >= k + 1);
                    } else {
                        assert(s2[oi - an - s1n] == other);
                        assert(s2.contains(other));
                        assert(extends(p2v, other));
                    }
                } else if (i < an + s1n) && (j < an + s1n) {
                    assert(s1[i - an] == x);
                    assert(s1[j - an] == y);
                } else if (i >= an + s1n) && (j >= an + s1n) {
                    assert(s2[i - an - s1n] == x);
                    assert(s2[j - an - s1n] == y);
                } else {
                    let (u, w) = if i < j { (i, j) } else { (j, i) };
                    assert(s1[u - an] == x);
                    assert(s2[w - an - s1n] == x);
                    assert(s1.contains(x) && s2.contains(x));
                    assert(extends(p1v, x));
                    assert(extends(p2v, x));
                    assert(x.take(p2v.len() - 1)[n as int] == p2v.take(p2v.len() - 1)[n as int]);
                }
            }
        }
    }
    Some(res)
}

fn has_cond(c: &Condition) -> (b: bool)
    ensures
        b == has_condition(*c),
{
    match c {
        Condition::NoCheck => false,
        _ => true,
    }
}


// ---------------------------------------------------------------------------
// Reading the workflow list
// ---------------------------------------------------------------------------

/// What a step's target text means: `R` rejects, `A` accepts, anything else
/// names a workflow.
pub open spec fn action_of(t: Seq<char>) -> ActionView {
    if t == seq!['R'] {
        ActionView::Reject
    } else if t == seq!['A'] {
        ActionView::Accept
    } else {
        ActionView::Jump(t)
    }
}

pub open spec fn is_rating(c: char) -> bool {
    c == 'x' || c == 'm' || c == 'a' || c == 's'
}

/// The ratings tuple with `v` in the slot of rating `c`.
pub open spec fn ratings_for(c: char, v: i64) -> Ratings {
    if c == 'x' {
        (Some(v), None, None, None)
    } else if c == 'm' {
        (None, Some(v), None, None)
    } else if c == 'a' {
        (None, None, Some(v), None)
    } else {
        (None, None, None, Some(v))
    }
}

/// The first position at or after `i` that does not hold a decimal digit.
pub open spec fn digit_run_end(s: Seq<char>, i: int) -> int
    decreases s.len() - i,
{
    if i < s.len() && is_digit(s[i]) {
        digit_run_end(s, i + 1)
    } else {
        i
    }
}

/// `s` starts with a test such as `a<2006:` (a rating, `<` or `>`, digits,
/// a colon); gives the position of the colon.
pub open spec fn test_colon(s: Seq<char>) -> Option<int> {
    if s.len() >= 3 && is_rating(s[0]) && (s[1] == '<' || s[1] == '>') && digit_run_end(s, 2) > 2
        && digit_run_end(s, 2) < s.len() && s[digit_run_end(s, 2)] == ':' {
        Some(digit_run_end(s, 2))
    } else {
        None
    }
}

/// One step of a workflow, from its (trimmed) text: `R`, `A`, a test
/// followed by a target, or a bare target.
pub open spec fn step_spec(s: Seq<char>) -> Option<(Condition, ActionView)> {
    if s == seq!['R'] {
        Some((Condition::NoCheck, ActionView::Reject))
    } else if s == seq!['A'] {
        Some((Condition::NoCheck, ActionView::Accept))
    } else if test_colon(s) is Some {
        let e = test_colon(s)->0;
        let target = s.skip(e + 1);
        match i64_literal(s.subrange(2, e)) {
            Some(v) => if target.len() == 0 {
                None
            } else {
                let r = ratings_for(s[0], v);
                Some(
                    (
                        if s[1] == '<' {
                            Condition::CheckLess(r)
                        } else {
                            Condition::CheckGreater(r)
                        },
                        action_of(target),
                    ),
                )
            },
            None => None,
        }
    } else if s.len() == 0 {
        None
    } else {
        Some((Condition::NoCheck, action_of(s)))
    }
}

pub open spec fn step_view(st: RuleStep) -> (Condition, ActionView) {
    (st.cond, st.action@)
}

pub open spec fn rule_view(r: Rule) -> (Seq<char>, Seq<(Condition, ActionView)>) {
    (r.name@, r.steps@.map_values(|st: RuleStep| step_view(st)))
}

/// The steps of a workflow body: its comma-separated pieces, trimmed, each
/// of which must read as a step.
pub open spec fn steps_spec(body: Seq<char>) -> Option<Seq<(Condition, ActionView)>> {
    let pieces = split_spec(body, ',');
    if forall|i: int| 0 <= i < pieces.len() ==> (#[trigger] step_spec(trim_spec(pieces[i]))) is Some {
        Some(Seq::new(pieces.len(), |i: int| step_spec(trim_spec(pieces[i]))->0))
    } else {
        None
    }
}

pub open spec fn is_name_char(c: char) -> bool {
    ('a' <= c && c <= 'z') || ('A' <= c && c <= 'Z') || ('0' <= c && c <= '9')
}

/// A workflow line `name{step,step,...}`: the name is ASCII letters and
/// digits, the body between the braces is not empty and holds no `}`.
pub open spec fn rule_line_spec(line: Seq<char>) -> Option<(Seq<char>, Seq<(Condition, ActionView)>)> {
    match first_index(line, '{') {
        Some(i) => {
            let name = line.take(i);
            let body = line.subrange(i + 1, line.len() - 1);
            if i > 0 && (forall|k: int| 0 <= k < i ==> is_name_char(#[trigger] line[k]))
                && line.len() >= i + 3 && line.last() == '}' && (forall|k: int|
                0 <= k < body.len() ==> #[trigger] body[k] != '}') {
                match steps_spec(body) {
                    Some(steps) => Some((name, steps)),
                    None => None,
                }
            } else {
                None
            }
        },
        None => None,
    }
}

fn is_rating_char(c: char) -> (b: bool)
    ensures
        b == is_rating(c),
{
    c == 'x' || c == 'm' || c == 'a' || c == 's'
}

proof fn lemma_digit_run_end(s: Seq<char>, i: int, j: int)
    requires
        0 <= i <= j <= s.len(),
        forall|k: int| i <= k < j ==> is_digit(#[trigger] s[k]),
        j == s.len() || !is_digit(s[j]),
    ensures
        digit_run_end(s, i) == j,
    decreases j - i,
{
    if i < j {
        lemma_digit_run_end(s, i + 1, j);
    }
}

/// Reads one (already trimmed) workflow step.
pub fn parse_step(s: &[char]) -> (res: Option<RuleStep>)
    ensures
        match res {
            Some(st) => step_spec(s@) == Some(step_view(st)),
            None => step_spec(s@) is None,
        },
{
    let n = s.len();
    if n == 1 && s[0] == 'R' {
        assert(s@ =~= seq!['R']);
        return Some(RuleStep { cond: Condition::NoCheck, action: RuleAction::Reject });
    }
    if n == 1 && s[0] == 'A' {
        assert(s@ =~= seq!['A']);
        return Some(RuleStep { cond: Condition::NoCheck, action: RuleAction::Accept });
    }
    assert(s@ != seq!['R'] && s@ != seq!['A']) by {
        if n == 1 {
            assert(s@[0] == seq!['R'][0] || true);
        }
        if s@ == seq!['R'] {
            assert(s@[0] == 'R');
        }
        if s@ == seq!['A'] {
            assert(s@[0] == 'A');
        }
    }
    let mut e: usize = 2;
    if n >= 3 {
        while e < n && '0' <= s[e] && s[e] <= '9'
            invariant
                2 <= e <= n,
                n == s@.len(),
                forall|k: int| 2 <= k < e ==> is_digit(#[trigger] s@[k]),
            decreases n - e,
        {
            e = e + 1;
        }
        proof {
            lemma_digit_run_end(s@, 2, e as int);
        }
    }
    if n >= 3 && is_rating_char(s[0]) && (s[1] == '<' || s[1] == '>') && e > 2 && e < n && s[e]
        == ':' {
        assert(test_colon(s@) == Some(e as int));
        let digits = slice_chars(s, 2, e);
        let target = slice_chars(s, e + 1, n);
        assert(target@ =~= s@.skip(e + 1));
        match parse_i64(digits.as_slice()) {
            None => {
                return None;
            },
            Some(v) => {
                if target.len() == 0 {
                    return None;
                }
                let r: Ratings = if s[0] == 'x' {
                    (Some(v), None, None, None)
                } else if s[0] == 'm' {
                    (None, Some(v), None, None)
                } else if s[0] == 'a' {
                    (None, None, Some(v), None)
                } else {
                    (None, None, None, Some(v))
                };
                let cond = if s[1] == '<' {
                    Condition::CheckLess(r)
                } else {
                    Condition::CheckGreater(r)
                };
                let action = target_action(target);
                return Some(RuleStep { cond, action });
            },
        }
    }
    assert(test_colon(s@) is None);
    if n == 0 {
        return None;
    }
    let mut whole: Vec<char> = slice_chars(s, 0, n);
    assert(whole@ =~= s@);
    Some(RuleStep { cond: Condition::NoCheck, action: target_action(whole) })
}

/// The action named by a step's target text.
fn target_action(t: Vec<char>) -> (a: RuleAction)
    ensures
        a@ == action_of(t@),
{
    if t.len() == 1 && t[0] == 'R' {
        assert(t@ =~= seq!['R']);
        RuleAction::Reject
    } else if t.len() == 1 && t[0] == 'A' {
        assert(t@ =~= seq!['A']);
        RuleAction::Accept
    } else {
        assert(t@ != seq!['R'] && t@ != seq!['A']) by {
            if t@ == seq!['R'] {
                assert(t@[0] == 'R');
            }
            if t@ == seq!['A'] {
                assert(t@[0] == 'A');
            }
        }
        RuleAction::Jump(t)
    }
}

/// Reads a workflow line `name{step,step,...}`.
pub fn parse_rule_line(line: &[char]) -> (res: Option<Rule>)
    ensures
        match res {
            Some(r) => rule_line_spec(line@) == Some(rule_view(r)),
            None => rule_line_spec(line@) is None,
        },
{
    let n = line.len();
    let i = match find_char(line, '{') {
        Some(i) => i,
        None => {
            return None;
        },
    };
    assert(first_index(line@, '{') == Some(i as int));
    if i == 0 || n - i < 3 || line[n - 1] != '}' {
        return None;
    }
    let mut k: usize = 0;
    while k < i
        invariant
            k <= i < n,
            n == line@.len(),
            i > 0,
            n - i >= 3,
            line@[n - 1] == '}',
            first_index(line@, '{') == Some(i as int),
            forall|j: int| 0 <= j < k ==> is_name_char(#[trigger] line@[j]),
        decreases i - k,
    {
        let c = line[k];
        if !(('a' <= c && c <= 'z') || ('A' <= c && c <= 'Z') || ('0' <= c && c <= '9')) {
            assert(!is_name_char(line@[k as int]));
            return None;
        }
        k = k + 1;
    }
    let body = slice_chars(line, i + 1, n - 1);
    match find_char(body.as_slice(), '}') {
        Some(w) => {
            assert(body@[w as int] == '}');
            return None;
        },
        None => {},
    }
    let name = slice_chars(line, 0, i);
    assert(name@ =~= line@.take(i as int));
    let pieces = split_on(body.as_slice(), ',');
    let ghost pv = rows(pieces@);
    let mut steps: Vec<RuleStep> = Vec::new();
    let mut j: usize = 0;
    while j < pieces.len()
        invariant
            j <= pieces@.len(),
            pv == rows(pieces@),
            pv == split_spec(body@, ','),
            pv.len() == pieces@.len(),
            first_index(line@, '{') == Some(i as int),
            body@ == line@.subrange(i + 1, line@.len() - 1),
            steps@.len() == j,
            forall|t: int|
                0 <= t < j ==> step_spec(trim_spec(pv[t])) == Some(
                    step_view(#[trigger] steps@[t]),
                ),
        decreases pieces@.len() - j,
    {
        let piece = trim(pieces[j].as_slice());
        assert(pv[j as int] == pieces@[j as int]@);
        match parse_step(piece.as_slice()) {
            Some(st) => {
                steps.push(st);
            },
            None => {
                assert(step_spec(trim_spec(pv[j as int])) is None);
                assert(steps_spec(body@) is None);
                assert(first_index(line@, '{') == Some(i as int));
                return None;
            },
        }
        j = j + 1;
    }
    let rule = Rule { name, steps };
    proof {
        assert(pv.len() == j);
        assert forall|t: int| 0 <= t < pv.len() implies (#[trigger] step_spec(trim_spec(pv[t]))) is Some by {
            assert(step_spec(trim_spec(pv[t])) == Some(step_view(steps@[t])));
        }
        let sv = Seq::new(pv.len(), |t: int| step_spec(trim_spec(pv[t]))->0);
        assert(rule.steps@.map_values(|st: RuleStep| step_view(st)) =~= sv);
    }
    Some(rule)
}

/// The workflows listed before the first blank line, when every such line
/// reads as a workflow.
pub open spec fn rules_spec(data: Seq<char>) -> Option<Seq<(Seq<char>, Seq<(Condition, ActionView)>)>> {
    let ls = lines_spec(data);
    let cut = workflow_count(ls);
    if forall|i: int| 0 <= i < cut ==> (#[trigger] rule_line_spec(ls[i])) is Some {
        Some(Seq::new(cut as nat, |i: int| rule_line_spec(ls[i])->0))
    } else {
        None
    }
}

/// How many lines come before the first one that is blank after trimming.
pub open spec fn workflow_count(ls: Seq<Seq<char>>) -> nat
    decreases ls.len(),
{
    if ls.len() == 0 || trim_spec(ls[0]).len() == 0 {
        0
    } else {
        1 + workflow_count(ls.drop_first())
    }
}

proof fn lemma_workflow_count(ls: Seq<Seq<char>>, i: int)
    requires
        0 <= i <= ls.len(),
        forall|k: int| 0 <= k < i ==> trim_spec(#[trigger] ls[k]).len() != 0,
        i == ls.len() || trim_spec(ls[i]).len() == 0,
    ensures
        workflow_count(ls) == i,
    decreases i,
{
    if i > 0 {
        assert(trim_spec(ls[0]).len() != 0);
        assert forall|k: int| 0 <= k < i - 1 implies trim_spec(#[trigger] ls.drop_first()[k]).len() != 0 by {
            assert(ls.drop_first()[k] == ls[k + 1]);
        }
        if i < ls.len() {
            assert(ls.drop_first()[i - 1] == ls[i]);
        }
        lemma_workflow_count(ls.drop_first(), i - 1);
    }
}

proof fn lemma_workflow_count_past(ls: Seq<Seq<char>>, i: int)
    requires
        0 <= i < ls.len(),
        forall|k: int| 0 <= k <= i ==> trim_spec(#[trigger] ls[k]).len() != 0,
    ensures
        workflow_count(ls) > i,
    decreases i,
{
    assert(trim_spec(ls[0]).len() != 0);
    if i > 0 {
        assert forall|k: int| 0 <= k <= i - 1 implies trim_spec(#[trigger] ls.drop_first()[k]).len() != 0 by {
            assert(ls.drop_first()[k] == ls[k + 1]);
        }
        lemma_workflow_count_past(ls.drop_first(), i - 1);
    }
}

/// Reads the workflow section of the puzzle input: every line up to the
/// first blank one.
#[verifier::spinoff_prover]
#[verifier::rlimit(30)]
pub fn parse_rules(data: &[char]) -> (res: Option<Vec<Rule>>)
    ensures
        match res {
            Some(rs) => rules_spec(data@) == Some(rs@.map_values(|r: Rule| rule_view(r))),
            None => rules_spec(data@) is None,
        },
{
    let ls = lines(data);
    let ghost lv = rows(ls@);
    let mut rules: Vec<Rule> = Vec::new();
    let mut i: usize = 0;
    while i < ls.len()
        invariant
            i <= ls@.len(),
            lv == rows(ls@),
            lv == lines_spec(data@),
            forall|k: int| 0 <= k < i ==> trim_spec(#[trigger] lv[k]).len() != 0,
            rules@.len() == i,
            forall|k: int|
                0 <= k < i ==> rule_line_spec(lv[k]) == Some(rule_view(#[trigger] rules@[k])),
        ensures
            i <= ls@.len(),
            forall|k: int| 0 <= k < i ==> trim_spec(#[trigger] lv[k]).len() != 0,
            rules@.len() == i,
            forall|k: int|
                0 <= k < i ==> rule_line_spec(lv[k]) == Some(rule_view(#[trigger] rules@[k])),
            i == ls@.len() || trim_spec(lv[i as int]).len() == 0,
        decreases ls@.len() - i,
    {
        assert(lv[i as int] == ls@[i as int]@);
        let t = trim(ls[i].as_slice());
        if t.len() == 0 {
            assert(lv.len() == ls@.len());
            break;
        }
        match parse_rule_line(ls[i].as_slice()) {
            Some(r) => {
                rules.push(r);
            },
            None => {
                proof {
                    lemma_workflow_count_past(lv, i as int);
                    assert(rule_line_spec(lv[i as int]) is None);
                }
                return None;
            },
        }
        i = i + 1;
    }
    proof {
        lemma_workflow_count(lv, i as int);
        assert forall|k: int| 0 <= k < i implies (#[trigger] rule_line_spec(lv[k])) is Some by {
            assert(rule_line_spec(lv[k]) == Some(rule_view(rules@[k])));
        }
        let sv = Seq::new(i as nat, |k: int| rule_line_spec(lv[k])->0);
        assert(rules@.map_values(|r: Rule| rule_view(r)) =~= sv);
    }
    Some(rules)
}

// ---------------------------------------------------------------------------
// All accepting chains
// ---------------------------------------------------------------------------

/// The name of the workflow every part starts in.
pub open spec fn start_name() -> Seq<char> {
    seq!['i', 'n']
}

/// Every chain of steps from workflow `in` that ends in acceptance, each
/// once; `None` when the chains never end (some chain is longer than there
/// are workflows, so a workflow repeats and the walk can go round forever).
pub fn accept_paths(rules: &Vec<Rule>) -> (res: Option<Vec<Vec<(usize, usize)>>>)
    requires
        rules_closed(rules@),
        rule_index(rules@, start_name()) is Some,
    ensures
        ({
            let start = rule_index(rules@, start_name())->0;
            &&& res matches Some(v) ==> forall|q: Seq<(usize, usize)>|
                paths_view(v@).contains(q) <==> accept_path(rules@, start, q)
            &&& res matches Some(v) ==> paths_view(v@).no_duplicates()
            &&& res is None <==> exists|q: Seq<(usize, usize)>|
                valid_path(rules@, start, q) && q.len() > rules@.len()
        }),
{
    let in_name: Vec<char> = vec!['i', 'n'];
    assert(in_name@ =~= start_name());
    let start = match find_rule(rules, &in_name) {
        Some(s) => s,
        None => {
            return None;
        },
    };
    proof {
        lemma_rule_index_bounds(rules@, start_name());
    }
    let root: Vec<(usize, usize)> = vec![(start, 0usize)];
    assert(root@ =~= seq![(start, 0usize)]);
    assert(valid_path(rules@, start as int, root@));
    let ghost rt = root@;
    let res = collect_accepting(rules, start, root);
    proof {
        assert forall|q: Seq<(usize, usize)>| valid_path(rules@, start as int, q) implies extends(
            rt,
            q,
        ) by {
            assert(q.take(0) =~= rt.take(0));
            assert(q[0] == q[0]);
        }
        if let Some(v) = &res {
            assert forall|q: Seq<(usize, usize)>|
                paths_view(v@).contains(q) <==> accept_path(rules@, start as int, q) by {
                assert(paths_view(v@).contains(q) ==> (accept_path(rules@, start as int, q) && extends(rt, q)));
                if accept_path(rules@, start as int, q) {
                    assert(extends(rt, q));
                    assert((accept_path(rules@, start as int, q) && extends(rt, q)) ==> paths_view(v@).contains(q));
                }
            }
            assert forall|q: Seq<(usize, usize)>| valid_path(rules@, start as int, q) implies q.len()
                <= rules@.len() by {
                assert(extends(rt, q));
            }
        }
    }
    res
}

// ---------------------------------------------------------------------------
// From a chain to the rating ranges it allows
// ---------------------------------------------------------------------------

/// The one rating a test looks at, and the value it compares with; `None`
/// when the tuple does not hold exactly one value.
pub open spec fn single_slot(r: Ratings) -> Option<(usize, i64)> {
    match r {
        (Some(v), None, None, None) => Some((0usize, v)),
        (None, Some(v), None, None) => Some((1usize, v)),
        (None, None, Some(v), None) => Some((2usize, v)),
        (None, None, None, Some(v)) => Some((3usize, v)),
        _ => None,
    }
}

/// The rating a single-rating test looks at.
pub open spec fn slot_index(k: Ratings) -> usize {
    match single_slot(k) {
        Some((q, _)) => q,
        None => 0usize,
    }
}

/// The value a single-rating test compares with.
pub open spec fn slot_value(k: Ratings) -> i64 {
    match single_slot(k) {
        Some((_, v)) => v,
        None => 0i64,
    }
}

/// The opposite test, over integers: not `> v` is `< v + 1`, not `< v` is `> v - 1`.
pub open spec fn flipped(c: Condition) -> Condition {
    match c {
        Condition::CheckGreater(k) => Condition::CheckLess(
            (
                match k.0 { Some(x) => Some((x + 1) as i64), None => None },
                match k.1 { Some(x) => Some((x + 1) as i64), None => None },
                match k.2 { Some(x) => Some((x + 1) as i64), None => None },
                match k.3 { Some(x) => Some((x + 1) as i64), None => None },
            ),
        ),
        Condition::CheckLess(k) => Condition::CheckGreater(
            (
                match k.0 { Some(x) => Some((x - 1) as i64), None => None },
                match k.1 { Some(x) => Some((x - 1) as i64), None => None },
                match k.2 { Some(x) => Some((x - 1) as i64), None => None },
                match k.3 { Some(x) => Some((x - 1) as i64), None => None },
            ),
        ),
        Condition::NoCheck => Condition::NoCheck,
    }
}

/// The tests a part meets on its way along chain entry `(r, k)`: it fails
/// the tests of steps `0..k` and passes the test of step `k`.
pub open spec fn entry_conds(rules: Seq<Rule>, e: (usize, usize)) -> Seq<Condition> {
    Seq::new(
        (e.1 + 1) as nat,
        |l: int|
            if l < e.1 {
                flipped(rules[e.0 as int].steps@[l].cond)
            } else {
                rules[e.0 as int].steps@[l].cond
            },
    )
}

/// The tests a part meets along a whole chain, in order.
pub open spec fn path_conds(rules: Seq<Rule>, p: Seq<(usize, usize)>) -> Seq<Condition>
    decreases p.len(),
{
    if p.len() == 0 {
        Seq::empty()
    } else {
        path_conds(rules, p.drop_last()) + entry_conds(rules, p.last())
    }
}

/// The rating range a test rules out, as (rating, low, high): `> v` rules
/// out `1..=v`, `< v` rules out `v..=4001`.
pub open spec fn cut_of(c: Condition) -> (usize, i64, i64) {
    match c {
        Condition::CheckGreater(k) => (slot_index(k), 1i64, slot_value(k)),
        Condition::CheckLess(k) => (slot_index(k), slot_value(k), 4001i64),
        Condition::NoCheck => (0usize, 0i64, 0i64),
    }
}

/// The ranges ruled out by a list of tests (tests that always pass rule out nothing).
pub open spec fn cuts_of(cs: Seq<Condition>) -> Seq<(usize, i64, i64)>
    decreases cs.len(),
{
    if cs.len() == 0 {
        Seq::empty()
    } else if has_condition(cs.last()) {
        cuts_of(cs.drop_last()).push(cut_of(cs.last()))
    } else {
        cuts_of(cs.drop_last())
    }
}

/// A test that can be turned into a range cut: it looks at exactly one
/// rating, and when it must fail, flipping it does not overflow; the range
/// cut is not empty (low <= high).
pub open spec fn cuttable(c: Condition, taken: bool) -> bool {
    match c {
        Condition::NoCheck => taken,
        Condition::CheckGreater(k) => single_slot(k) is Some && (taken ==> 1 <= slot_value(k))
            && (!taken ==> slot_value(k) < i64::MAX && slot_value(k) + 1 <= 4001),
        Condition::CheckLess(k) => single_slot(k) is Some && (taken ==> slot_value(k) <= 4001)
            && (!taken ==> slot_value(k) > i64::MIN && 1 <= slot_value(k) - 1),
    }
}

/// Every test along the chain can be turned into a range cut.
pub open spec fn path_cuttable(rules: Seq<Rule>, p: Seq<(usize, usize)>) -> bool {
    forall|j: int, l: int|
        0 <= j < p.len() && 0 <= l <= p[j].1 ==> cuttable(
            #[trigger] rules[p[j].0 as int].steps@[l].cond,
            l == p[j].1,
        ) && p[j].0 < rules.len() && p[j].1 < rules[p[j].0 as int].steps@.len()
}

fn flip_condition(c: Condition) -> (f: Condition)
    requires
        cuttable(c, false),
    ensures
        f == flipped(c),
{
    match c {
        Condition::CheckGreater(k) => Condition::CheckLess(optadd(k, 1)),
        Condition::CheckLess(k) => Condition::CheckGreater(optadd(k, -1)),
        Condition::NoCheck => Condition::NoCheck,
    }
}

fn slot_of(k: Ratings) -> (res: (usize, i64))
    requires
        single_slot(k) is Some,
    ensures
        res == single_slot(k)->0,
{
    match k {
        (Some(v), None, None, None) => (0, v),
        (None, Some(v), None, None) => (1, v),
        (None, None, Some(v), None) => (2, v),
        (None, None, None, Some(v)) => (3, v),
        _ => (0, 0),
    }
}

/// The rating ranges a chain rules out, in the order the chain meets its
/// tests: a part follows the chain exactly when none of its ratings falls in
/// one of these ranges (see [`lemma_cuts_select_path`]).
pub fn path_cuts(rules: &Vec<Rule>, path: &Vec<(usize, usize)>) -> (cuts: Vec<(usize, i64, i64)>)
    requires
        path_cuttable(rules@, path@),
    ensures
        cuts@ == cuts_of(path_conds(rules@, path@)),
{
    let mut cuts: Vec<(usize, i64, i64)> = Vec::new();
    let mut j: usize = 0;
    while j < path.len()
        invariant
            j <= path@.len(),
            path_cuttable(rules@, path@),
            cuts@ == cuts_of(path_conds(rules@, path@.take(j as int))),
        decreases path@.len() - j,
    {
        let (r, k) = path[j];
        assert(path@[j as int] == (r, k));
        assert(r < rules@.len() && k < rules@[r as int].steps@.len()) by {
            assert(cuttable(rules@[r as int].steps@[0].cond, 0 == k));
        }
        let ghost before = path_conds(rules@, path@.take(j as int));
        let ghost ec = entry_conds(rules@, (r, k));
        let nsteps = rules[r].steps.len();
        let mut l: usize = 0;
        while l <= k
            invariant
                l <= k + 1,
                j < path@.len(),
                path@[j as int] == (r, k),
                k < rules@[r as int].steps@.len(),
                k < nsteps,
                r < rules@.len(),
                path_cuttable(rules@, path@),
                ec == entry_conds(rules@, (r, k)),
                cuts@ == cuts_of(before + ec.take(l as int)),
            decreases k + 1 - l,
        {
            let c = rules[r].steps[l].cond;
            assert(cuttable(rules@[r as int].steps@[l as int].cond, l == k));
            let cond = if l != k {
                flip_condition(c)
            } else {
                c
            };
            assert(cond == ec[l as int]);
            assert((before + ec.take(l + 1)).drop_last() =~= before + ec.take(l as int));
            assert((before + ec.take(l + 1)).last() == cond);
            match cond {
                Condition::NoCheck => {},
                Condition::CheckGreater(kk) => {
                    let (q, v) = slot_of(kk);
                    cuts.push((q, 1i64, v));
                },
                Condition::CheckLess(kk) => {
                    let (q, v) = slot_of(kk);
                    cuts.push((q, v, 4001i64));
                },
            }
            l = l + 1;
        }
        assert(ec.take(l as int) =~= ec);
        assert(path@.take(j + 1).drop_last() =~= path@.take(j as int));
        assert(path@.take(j + 1).last() == (r, k));
        j = j + 1;
    }
    assert(path@.take(j as int) =~= path@);
    cuts
}

/// Rating `q` of a part (0: x, 1: m, 2: a, 3: s).
pub open spec fn rating(part: Part, q: usize) -> i64 {
    if q == 0 {
        part.x
    } else if q == 1 {
        part.m
    } else if q == 2 {
        part.a
    } else {
        part.s
    }
}

/// Whether a part passes a test.
pub open spec fn passes(c: Condition, part: Part) -> bool {
    match c {
        Condition::NoCheck => true,
        Condition::CheckLess(k) => single_slot(k) is Some && rating(part, slot_index(k))
            < slot_value(k),
        Condition::CheckGreater(k) => single_slot(k) is Some && rating(part, slot_index(k))
            > slot_value(k),
    }
}

/// A part follows a chain: at each entry it fails the tests of the steps
/// before the chosen one and passes the chosen step's test.
pub open spec fn follows(rules: Seq<Rule>, p: Seq<(usize, usize)>, part: Part) -> bool {
    forall|j: int, l: int|
        0 <= j < p.len() && 0 <= l <= p[j].1 ==> (if l < p[j].1 {
            !passes(#[trigger] rules[p[j].0 as int].steps@[l].cond, part)
        } else {
            passes(rules[p[j].0 as int].steps@[l].cond, part)
        })
}

/// A range cut holds a part's rating.
pub open spec fn in_cut(part: Part, cut: (usize, i64, i64)) -> bool {
    cut.1 <= rating(part, cut.0) <= cut.2
}

pub open spec fn ratings_in_range(part: Part) -> bool {
    1 <= part.x <= 4000 && 1 <= part.m <= 4000 && 1 <= part.a <= 4000 && 1 <= part.s <= 4000
}

proof fn lemma_cuts_of_append(a: Seq<Condition>, b: Seq<Condition>, part: Part)
    requires
        ratings_in_range(part),
        forall|t: int| 0 <= t < b.len() && has_condition(#[trigger] b[t]) ==> single_slot(
            match b[t] {
                Condition::CheckGreater(k) => k,
                Condition::CheckLess(k) => k,
                Condition::NoCheck => (None, None, None, None),
            },
        ) is Some,
    ensures
        (forall|i: int| 0 <= i < cuts_of(a + b).len() ==> !in_cut(part, #[trigger] cuts_of(a + b)[i]))
            <==> ((forall|i: int| 0 <= i < cuts_of(a).len() ==> !in_cut(part, #[trigger] cuts_of(a)[i]))
            && (forall|t: int| 0 <= t < b.len() ==> passes(#[trigger] b[t], part))),
    decreases b.len(),
{
    if b.len() == 0 {
        assert(a + b =~= a);
    } else {
        let b0 = b.drop_last();
        assert((a + b).drop_last() =~= a + b0);
        assert((a + b).last() == b.last());
        assert forall|t: int| 0 <= t < b0.len() && has_condition(#[trigger] b0[t]) implies single_slot(
            match b0[t] {
                Condition::CheckGreater(k) => k,
                Condition::CheckLess(k) => k,
                Condition::NoCheck => (None, None, None, None),
            },
        ) is Some by {
            assert(b0[t] == b[t]);
        }
        lemma_cuts_of_append(a, b0, part);
        let c = b.last();
        assert(has_condition(b[b.len() - 1]) ==> single_slot(
            match b[b.len() - 1] {
                Condition::CheckGreater(k) => k,
                Condition::CheckLess(k) => k,
                Condition::NoCheck => (None, None, None, None),
            },
        ) is Some);
        // one test: passing it is the same as the rating avoiding its cut
        assert(has_condition(c) ==> (passes(c, part) <==> !in_cut(part, cut_of(c))));
        let all = cuts_of(a + b);
        let pre = cuts_of(a + b0);
        if has_condition(c) {
            assert(all =~= pre.push(cut_of(c)));
        } else {
            assert(all =~= pre);
        }
        assert((forall|t: int| 0 <= t < b.len() ==> passes(#[trigger] b[t], part)) <==> ((forall|t: int|
            0 <= t < b0.len() ==> passes(#[trigger] b0[t], part)) && passes(c, part))) by {
            if forall|t: int| 0 <= t < b0.len() ==> passes(#[trigger] b0[t], part) {
                assert forall|t: int| 0 <= t < b.len() - 1 implies passes(#[trigger] b[t], part) by {
                    assert(b0[t] == b[t]);
                }
            }
            if forall|t: int| 0 <= t < b.len() ==> passes(#[trigger] b[t], part) {
                assert forall|t: int| 0 <= t < b0.len() implies passes(#[trigger] b0[t], part) by {
                    assert(b0[t] == b[t]);
                }
                assert(passes(b[b.len() - 1], part));
            }
        }
        if has_condition(c) {
            assert((forall|i: int| 0 <= i < all.len() ==> !in_cut(part, #[trigger] all[i])) <==> ((
            forall|i: int| 0 <= i < pre.len() ==> !in_cut(part, #[trigger] pre[i])) && !in_cut(
                part,
                cut_of(c),
            ))) by {
                if forall|i: int| 0 <= i < all.len() ==> !in_cut(part, #[trigger] all[i]) {
                    assert forall|i: int| 0 <= i < pre.len() implies !in_cut(part, #[trigger] pre[i]) by {
                        assert(all[i] == pre[i]);
                    }
                    assert(!in_cut(part, all[all.len() - 1]));
                }
            }
        }
    }
}

/// A part with ratings in `1..=4000` follows a chain exactly when none of its
/// ratings falls in one of the ranges that [`path_cuts`] gives for the chain.
pub proof fn lemma_cuts_select_path(rules: Seq<Rule>, p: Seq<(usize, usize)>, part: Part)
    requires
        path_cuttable(rules, p),
        ratings_in_range(part),
    ensures
        follows(rules, p, part) <==> forall|i: int|
            0 <= i < cuts_of(path_conds(rules, p)).len() ==> !in_cut(
                part,
                #[trigger] cuts_of(path_conds(rules, p))[i],
            ),
    decreases p.len(),
{
    if p.len() == 0 {
        assert(cuts_of(path_conds(rules, p)) =~= Seq::<(usize, i64, i64)>::empty());
    } else {
        let p0 = p.drop_last();
        let e = p.last();
        let n = p.len() - 1;
        assert(e == p[n]);
        assert(path_cuttable(rules, p0)) by {
            assert forall|j: int, l: int| 0 <= j < p0.len() && 0 <= l <= p0[j].1 implies cuttable(
                #[trigger] rules[p0[j].0 as int].steps@[l].cond,
                l == p0[j].1,
            ) && p0[j].0 < rules.len() && p0[j].1 < rules[p0[j].0 as int].steps@.len() by {
                assert(p0[j] == p[j]);
                assert(cuttable(rules[p[j].0 as int].steps@[l].cond, l == p[j].1));
            }
        }
        lemma_cuts_select_path(rules, p0, part);
        let ec = entry_conds(rules, e);
        assert(cuttable(rules[e.0 as int].steps@[0].cond, 0 == e.1));
        assert forall|t: int| 0 <= t < ec.len() && has_condition(#[trigger] ec[t]) implies single_slot(
            match ec[t] {
                Condition::CheckGreater(k) => k,
                Condition::CheckLess(k) => k,
                Condition::NoCheck => (None, None, None, None),
            },
        ) is Some by {
            assert(cuttable(rules[p[n].0 as int].steps@[t].cond, t == p[n].1));
        }
        lemma_cuts_of_append(path_conds(rules, p0), ec, part);
        // the entry's tests are met exactly when the part fails the skipped
        // steps and passes the chosen one
        assert forall|t: int| 0 <= t < ec.len() implies (passes(#[trigger] ec[t], part) <==> (if t
            < e.1 {
            !passes(rules[e.0 as int].steps@[t].cond, part)
        } else {
            passes(rules[e.0 as int].steps@[t].cond, part)
        })) by {
            assert(cuttable(rules[p[n].0 as int].steps@[t].cond, t == p[n].1));
        }
        let all_ec = forall|t: int| 0 <= t < ec.len() ==> passes(#[trigger] ec[t], part);
        if follows(rules, p, part) {
            assert forall|j: int, l: int| 0 <= j < p0.len() && 0 <= l <= p0[j].1 implies (if l
                < p0[j].1 {
                !passes(#[trigger] rules[p0[j].0 as int].steps@[l].cond, part)
            } else {
                passes(rules[p0[j].0 as int].steps@[l].cond, part)
            }) by {
                assert(p0[j] == p[j]);
                let c = rules[p[j].0 as int].steps@[l].cond;
                assert(if l < p[j].1 { !passes(c, part) } else { passes(c, part) });
            }
            assert forall|t: int| 0 <= t < ec.len() implies passes(#[trigger] ec[t], part) by {
                let c = rules[p[n].0 as int].steps@[t].cond;
                assert(if t < p[n].1 { !passes(c, part) } else { passes(c, part) });
            }
            assert(follows(rules, p0, part) && all_ec);
        }
        if follows(rules, p0, part) && all_ec {
            assert forall|j: int, l: int| 0 <= j < p.len() && 0 <= l <= p[j].1 implies (if l
                < p[j].1 {
                !passes(#[trigger] rules[p[j].0 as int].steps@[l].cond, part)
            } else {
                passes(rules[p[j].0 as int].steps@[l].cond, part)
            }) by {
                if j < n {
                    assert(p0[j] == p[j]);
                    let c = rules[p0[j].0 as int].steps@[l].cond;
                    assert(if l < p0[j].1 { !passes(c, part) } else { passes(c, part) });
                } else {
                    assert(passes(ec[l], part));
                }
            }
            assert(follows(rules, p, part));
        }
        assert(path_conds(rules, p) == path_conds(rules, p0) + ec);
    }
}

// ---------------------------------------------------------------------------
// Counting
// ---------------------------------------------------------------------------

/// One plus the sum, over the chains, of the product of the four rating counts.
pub open spec fn total_combinations(counts: Seq<(u64, u64, u64, u64)>) -> int
    decreases counts.len(),
{
    if counts.len() == 0 {
        1
    } else {
        let c = counts.last();
        total_combinations(counts.drop_last()) + c.0 * c.1 * c.2 * c.3
    }
}

/// No range cut of rating `slot` holds `v`.
pub open spec fn cut_free(cuts: Seq<(usize, i64, i64)>, slot: usize, v: int) -> bool {
    forall|i: int| 0 <= i < cuts.len() && (#[trigger] cuts[i]).0 == slot ==> !(cuts[i].1 <= v <= cuts[i].2)
}

/// How many of the values `1..=n` of rating `slot` no range cut holds.
pub open spec fn free_count(cuts: Seq<(usize, i64, i64)>, slot: usize, n: int) -> nat
    decreases n,
{
    if n <= 0 {
        0
    } else {
        free_count(cuts, slot, n - 1) + if cut_free(cuts, slot, n) {
            1nat
        } else {
            0nat
        }
    }
}

proof fn lemma_free_count_bound(cuts: Seq<(usize, i64, i64)>, slot: usize, n: int)
    ensures
        free_count(cuts, slot, n) <= if n < 0 { 0 } else { n },
    decreases n,
{
    if n > 0 {
        lemma_free_count_bound(cuts, slot, n - 1);
    }
}

/// The number of values `1..=4000` of rating `slot` that none of the range
/// cuts holds.
pub fn free_values(cuts: &Vec<(usize, i64, i64)>, slot: usize) -> (n: u64)
    ensures
        n == free_count(cuts@, slot, 4000),
        n <= 4000,
{
    let mut n: u64 = 0;
    let mut v: i64 = 1;
    while v <= 4000
        invariant
            1 <= v <= 4001,
            n == free_count(cuts@, slot, v - 1),
            n <= v - 1,
        decreases 4001 - v,
    {
        let mut free = true;
        let mut i: usize = 0;
        while i < cuts.len()
            invariant
                i <= cuts@.len(),
                free == (forall|t: int| 0 <= t < i && (#[trigger] cuts@[t]).0 == slot ==> !(cuts@[t].1 <= v <= cuts@[t].2)),
            decreases cuts@.len() - i,
        {
            let (k, lo, hi) = cuts[i];
            if k == slot && lo <= v && v <= hi {
                free = false;
            }
            i = i + 1;
        }
        if free {
            n = n + 1;
        }
        v = v + 1;
    }
    proof {
        lemma_free_count_bound(cuts@, slot, 4000);
    }
    n
}

/// With at most 4000 values per rating in each chain, the total is at least
/// one and at most one plus 4000 to the fourth power per chain.
pub proof fn lemma_total_bound(counts: Seq<(u64, u64, u64, u64)>)
    requires
        forall|i: int|
            0 <= i < counts.len() ==> (#[trigger] counts[i]).0 <= 4000 && counts[i].1 <= 4000
                && counts[i].2 <= 4000 && counts[i].3 <= 4000,
    ensures
        1 <= total_combinations(counts) <= 1 + counts.len() * 256000000000000,
    decreases counts.len(),
{
    if counts.len() > 0 {
        let c = counts.last();
        assert(c == counts[counts.len() - 1]);
        lemma_total_bound(counts.drop_last());
        assert(c.0 * c.1 <= 4000 * 4000) by (nonlinear_arith)
            requires
                c.0 <= 4000,
                c.1 <= 4000,
        ;
        assert(c.0 * c.1 * c.2 <= 4000 * 4000 * 4000) by (nonlinear_arith)
            requires
                c.0 * c.1 <= 4000 * 4000,
                c.2 <= 4000,
        ;
        assert(c.0 * c.1 * c.2 * c.3 <= 256000000000000) by (nonlinear_arith)
            requires
                c.0 * c.1 * c.2 <= 4000 * 4000 * 4000,
                c.3 <= 4000,
        ;
    }
}

/// The answer for the workflows: one plus, over the accepting chains, the
/// product of how many values of each rating the chain allows.
pub fn combine_counts(counts: &Vec<(u64, u64, u64, u64)>) -> (res: u128)
    requires
        forall|i: int|
            0 <= i < counts@.len() ==> (#[trigger] counts@[i]).0 <= 4000 && counts@[i].1 <= 4000
                && counts@[i].2 <= 4000 && counts@[i].3 <= 4000,
    ensures
        res == total_combinations(counts@),
{
    let mut res: u128 = 1;
    let mut i: usize = 0;
    while i < counts.len()
        invariant
            i <= counts@.len(),
            forall|k: int|
                0 <= k < counts@.len() ==> (#[trigger] counts@[k]).0 <= 4000 && counts@[k].1
                    <= 4000 && counts@[k].2 <= 4000 && counts@[k].3 <= 4000,
            res == total_combinations(counts@.take(i as int)),
        decreases counts@.len() - i,
    {
        let c = counts[i];
        proof {
            assert(counts@.take(i + 1).drop_last() =~= counts@.take(i as int));
            lemma_total_bound(counts@.take(i + 1));
        }
        assert(c.0 <= 4000 && c.1 <= 4000 && c.2 <= 4000 && c.3 <= 4000) by {
            assert(counts@[i as int] == c);
        }
        let c0 = c.0 as u128;
        let c1 = c.1 as u128;
        let c2 = c.2 as u128;
        let c3 = c.3 as u128;
        assert(c0 * c1 <= 16000000) by (nonlinear_arith)
            requires
                c0 <= 4000,
                c1 <= 4000,
        ;
        let p01 = c0 * c1;
        assert(p01 * c2 <= 64000000000) by (nonlinear_arith)
            requires
                p01 <= 16000000,
                c2 <= 4000,
        ;
        let p012 = p01 * c2;
        assert(p012 * c3 <= 256000000000000) by (nonlinear_arith)
            requires
                p012 <= 64000000000,
                c3 <= 4000,
        ;
        let p: u128 = p012 * c3;
        res = res + p;
        i = i + 1;
    }
    assert(counts@.take(i as int) =~= counts@);
    res
}

// ---------------------------------------------------------------------------
// A set of integers kept as a list of inclusive ranges
// ---------------------------------------------------------------------------

/// A set of integers, as a list of inclusive ranges `(low, high)`.
#[derive(Debug, Clone, PartialEq, Eq)]
pub struct Ival {
    pub chunks: Vec<(i64, i64)>,
}

/// Some range in `chunks` holds `v`.
pub open spec fn covers(chunks: Seq<(i64, i64)>, v: int) -> bool {
    exists|i: int| 0 <= i < chunks.len() && (#[trigger] chunks[i]).0 <= v <= chunks[i].1
}

/// The sum of the range lengths `high - low + 1`.
pub open spec fn chunk_total(chunks: Seq<(i64, i64)>) -> int
    decreases chunks.len(),
{
    if chunks.len() == 0 {
        0
    } else {
        chunk_total(chunks.drop_last()) + chunks.last().1 - chunks.last().0 + 1
    }
}

/// The ranges are not empty and no two of them share a value.
pub open spec fn disjoint_chunks(chunks: Seq<(i64, i64)>) -> bool {
    &&& forall|i: int| 0 <= i < chunks.len() ==> (#[trigger] chunks[i]).0 <= chunks[i].1
    &&& forall|i: int, j: int|
        0 <= i < j < chunks.len() ==> (#[trigger] chunks[i]).1 < (#[trigger] chunks[j]).0
            || chunks[j].1 < chunks[i].0
}

/// The range `c` holds `v`.
pub open spec fn in_chunk(c: (i64, i64), v: int) -> bool {
    c.0 <= v <= c.1
}

proof fn lemma_covers_step(s: Seq<(i64, i64)>, i: int, v: int)
    requires
        0 <= i < s.len(),
    ensures
        covers(s.take(i + 1), v) <==> (covers(s.take(i), v) || s[i].0 <= v <= s[i].1),
{
    if covers(s.take(i + 1), v) {
        let w = choose|w: int| 0 <= w < i + 1 && (#[trigger] s.take(i + 1)[w]).0 <= v <= s.take(i + 1)[w].1;
        if w < i {
            assert(s.take(i)[w] == s.take(i + 1)[w]);
        }
    }
    if covers(s.take(i), v) {
        let w = choose|w: int| 0 <= w < i && (#[trigger] s.take(i)[w]).0 <= v <= s.take(i)[w].1;
        assert(s.take(i + 1)[w] == s.take(i)[w]);
    }
    if s[i].0 <= v <= s[i].1 {
        assert(s.take(i + 1)[i] == s[i]);
    }
}

/// The integers the ranges hold.
pub open spec fn chunk_set(chunks: Seq<(i64, i64)>) -> Set<int> {
    Set::new(|v: int| covers(chunks, v))
}

/// The range `c` meets `vmin..=vmax`.
pub open spec fn meets(c: (i64, i64), vmin: i64, vmax: i64) -> bool {
    !(vmin > c.1 || vmax < c.0)
}

/// Range `c` after `vmin..=vmax` is added: unchanged where they do not meet,
/// else widened to cover both.
pub open spec fn include_piece(c: (i64, i64), vmin: i64, vmax: i64) -> (i64, i64) {
    if !meets(c, vmin, vmax) {
        c
    } else {
        (if c.0 < vmin { c.0 } else { vmin }, if c.1 > vmax { c.1 } else { vmax })
    }
}

/// Every range after `vmin..=vmax` is added, in order.
pub open spec fn include_pieces(chunks: Seq<(i64, i64)>, vmin: i64, vmax: i64) -> Seq<(i64, i64)>
    decreases chunks.len(),
{
    if chunks.len() == 0 {
        Seq::empty()
    } else {
        include_pieces(chunks.drop_last(), vmin, vmax).push(include_piece(chunks.last(), vmin, vmax))
    }
}

/// Some range meets `vmin..=vmax`.
pub open spec fn any_meets(chunks: Seq<(i64, i64)>, vmin: i64, vmax: i64) -> bool
    decreases chunks.len(),
{
    chunks.len() > 0 && (any_meets(chunks.drop_last(), vmin, vmax) || meets(chunks.last(), vmin, vmax))
}

/// The ranges after `vmin..=vmax` is added: each range widened where it
/// meets the new one, and the new one put at the end where none does.
pub open spec fn include_spec(chunks: Seq<(i64, i64)>, vmin: i64, vmax: i64) -> Seq<(i64, i64)> {
    include_pieces(chunks, vmin, vmax) + if any_meets(chunks, vmin, vmax) {
        Seq::<(i64, i64)>::empty()
    } else {
        seq![(vmin, vmax)]
    }
}

/// Range `c` after `vmin..=vmax` is removed: kept, dropped, cut at one end,
/// or split in two.
pub open spec fn exclude_piece(c: (i64, i64), vmin: i64, vmax: i64) -> Seq<(i64, i64)> {
    if vmin > c.1 || vmax < c.0 {
        seq![c]
    } else if vmin <= c.0 && vmax >= c.1 {
        Seq::empty()
    } else if vmin <= c.0 && vmax < c.1 {
        seq![((vmax + 1) as i64, c.1)]
    } else if vmin > c.0 && vmax >= c.1 {
        seq![(c.0, (vmin - 1) as i64)]
    } else {
        seq![(c.0, (vmin - 1) as i64), ((vmax + 1) as i64, c.1)]
    }
}

/// The ranges after `vmin..=vmax` is removed, in order.
pub open spec fn exclude_spec(chunks: Seq<(i64, i64)>, vmin: i64, vmax: i64) -> Seq<(i64, i64)>
    decreases chunks.len(),
{
    if chunks.len() == 0 {
        Seq::empty()
    } else {
        exclude_spec(chunks.drop_last(), vmin, vmax) + exclude_piece(chunks.last(), vmin, vmax)
    }
}

/// Each range runs upwards, and each ends below the start of the next.
pub open spec fn ordered_chunks(chunks: Seq<(i64, i64)>) -> bool {
    &&& forall|i: int| 0 <= i < chunks.len() ==> (#[trigger] chunks[i]).0 <= chunks[i].1
    &&& forall|i: int, j: int| 0 <= i < j < chunks.len() ==> (#[trigger] chunks[i]).1 < (#[trigger] chunks[j]).0
}

proof fn lemma_exclude_piece(c: (i64, i64), vmin: i64, vmax: i64)
    requires
        c.0 <= c.1,
        vmin <= vmax,
    ensures
        ordered_chunks(exclude_piece(c, vmin, vmax)),
        forall|k: int| 0 <= k < exclude_piece(c, vmin, vmax).len() ==> c.0 <= (#[trigger] exclude_piece(c, vmin, vmax)[k]).0
            && exclude_piece(c, vmin, vmax)[k].1 <= c.1,
{
}

proof fn lemma_exclude_ordered(chunks: Seq<(i64, i64)>, vmin: i64, vmax: i64)
    requires
        ordered_chunks(chunks),
        vmin <= vmax,
    ensures
        ordered_chunks(exclude_spec(chunks, vmin, vmax)),
        chunks.len() > 0 ==> forall|k: int| 0 <= k < exclude_spec(chunks, vmin, vmax).len()
            ==> (#[trigger] exclude_spec(chunks, vmin, vmax)[k]).1 <= chunks.last().1,
    decreases chunks.len(),
{
    if chunks.len() > 0 {
        let t = chunks.drop_last();
        let l = chunks.last();
        assert(ordered_chunks(t)) by {
            assert forall|i: int, j: int| 0 <= i < j < t.len() implies (#[trigger] t[i]).1 < (#[trigger] t[j]).0 by {
                assert(t[i] == chunks[i] && t[j] == chunks[j]);
            }
        }
        lemma_exclude_ordered(t, vmin, vmax);
        assert(chunks[chunks.len() - 1] == l);
        lemma_exclude_piece(l, vmin, vmax);
        let e = exclude_spec(t, vmin, vmax);
        let p = exclude_piece(l, vmin, vmax);
        let r = e + p;
        assert(exclude_spec(chunks, vmin, vmax) == r);
        if t.len() > 0 {
            assert(t.last() == chunks[chunks.len() - 2]);
        }
        assert forall|k: int| 0 <= k < e.len() implies (#[trigger] e[k]).1 < l.0 by {
            assert(t.len() > 0);
        }
        assert forall|i: int| 0 <= i < r.len() implies (#[trigger] r[i]).0 <= r[i].1 by {
            if i < e.len() {
                assert(r[i] == e[i]);
            } else {
                assert(r[i] == p[i - e.len()]);
            }
        }
        assert forall|i: int, j: int| 0 <= i < j < r.len() implies (#[trigger] r[i]).1 < (#[trigger] r[j]).0 by {
            if j < e.len() {
                assert(r[i] == e[i] && r[j] == e[j]);
            } else if i < e.len() {
                assert(r[i] == e[i] && r[j] == p[j - e.len()]);
            } else {
                assert(r[i] == p[i - e.len()] && r[j] == p[j - e.len()]);
            }
        }
        assert forall|k: int| 0 <= k < r.len() implies (#[trigger] r[k]).1 <= l.1 by {
            if k < e.len() {
                assert(r[k] == e[k]);
            } else {
                assert(r[k] == p[k - e.len()]);
            }
        }
    }
}

proof fn lemma_include_pieces_len(chunks: Seq<(i64, i64)>, vmin: i64, vmax: i64)
    ensures
        include_pieces(chunks, vmin, vmax).len() == chunks.len(),
    decreases chunks.len(),
{
    if chunks.len() > 0 {
        lemma_include_pieces_len(chunks.drop_last(), vmin, vmax);
    }
}

impl Ival {
    /// The set `1..=4000`.
    pub fn new() -> (r: Ival)
        ensures
            r.chunks@ == seq![(1i64, 4000i64)],
            forall|v: int| covers(r.chunks@, v) <==> 1 <= v <= 4000,
    {
        let r = Ival { chunks: vec![(1, 4000)] };
        assert(r.chunks@ =~= seq![(1i64, 4000i64)]);
        assert forall|v: int| covers(r.chunks@, v) <==> 1 <= v <= 4000 by {
            if 1 <= v <= 4000 {
                assert(r.chunks@[0] == (1i64, 4000i64));
            }
        }
        r
    }

    /// Adds the values `vmin..=vmax`.
    pub fn include_range(&mut self, vmin: i64, vmax: i64)
        ensures
            forall|v: int|
                covers(final(self).chunks@, v) <==> (covers(old(self).chunks@, v) || vmin <= v
                    <= vmax),
            final(self).chunks@ == include_spec(old(self).chunks@, vmin, vmax),
            final(self).chunks@.len() == old(self).chunks@.len() + if any_meets(old(self).chunks@, vmin, vmax) {
                0int
            } else {
                1int
            },
    {
        let ghost old_chunks = self.chunks@;
        let mut new_chunks: Vec<(i64, i64)> = Vec::new();
        let mut found = false;
        let mut i: usize = 0;
        while i < self.chunks.len()
            invariant
                i <= old_chunks.len(),
                self.chunks@ == old_chunks,
                forall|v: int|
                    covers(new_chunks@, v) <==> (covers(old_chunks.take(i as int), v) || (found
                        && vmin <= v <= vmax)),
                new_chunks@ == include_pieces(old_chunks.take(i as int), vmin, vmax),
                found == any_meets(old_chunks.take(i as int), vmin, vmax),
            decreases old_chunks.len() - i,
        {
            let (a, b) = self.chunks[i];
            proof {
                assert(old_chunks.take(i + 1).drop_last() =~= old_chunks.take(i as int));
                assert(old_chunks.take(i + 1).last() == (a, b));
            }
            let ghost before = new_chunks@;
            let ghost was_found = found;
            assert forall|v: int| covers(old_chunks.take(i + 1), v) <==> (covers(old_chunks.take(i as int), v) || a <= v <= b) by {
                if covers(old_chunks.take(i + 1), v) {
                    let w = choose|w: int| 0 <= w < i + 1 && (#[trigger] old_chunks.take(i + 1)[w]).0 <= v <= old_chunks.take(i + 1)[w].1;
                    if w < i {
                        assert(old_chunks.take(i as int)[w] == old_chunks.take(i + 1)[w]);
                    }
                }
                if covers(old_chunks.take(i as int), v) {
                    let w = choose|w: int| 0 <= w < i && (#[trigger] old_chunks.take(i as int)[w]).0 <= v <= old_chunks.take(i as int)[w].1;
                    assert(old_chunks.take(i + 1)[w] == old_chunks.take(i as int)[w]);
                }
                if a <= v <= b {
                    assert(old_chunks.take(i + 1)[i as int] == (a, b));
                }
            }
            if vmin > b || vmax < a {
                new_chunks.push((a, b));
            } else {
                let lo = if a < vmin { a } else { vmin };
                let hi = if b > vmax { b } else { vmax };
                new_chunks.push((lo, hi));
                found = true;
            }
            assert forall|v: int| covers(new_chunks@, v) <==> (covers(before, v) || new_chunks@.last().0 <= v <= new_chunks@.last().1) by {
                if covers(new_chunks@, v) {
                    let w = choose|w: int| 0 <= w < new_chunks@.len() && (#[trigger] new_chunks@[w]).0 <= v <= new_chunks@[w].1;
                    if w < before.len() {
                        assert(before[w] == new_chunks@[w]);
                    }
                }
                if covers(before, v) {
                    let w = choose|w: int| 0 <= w < before.len() && (#[trigger] before[w]).0 <= v <= before[w].1;
                    assert(new_chunks@[w] == before[w]);
                }
                if new_chunks@.last().0 <= v <= new_chunks@.last().1 {
                    assert(new_chunks@[new_chunks@.len() - 1] == new_chunks@.last());
                }
            }
            assert forall|v: int| covers(new_chunks@, v) <==> (covers(old_chunks.take(i + 1), v) || (found
                && vmin <= v <= vmax)) by {
                assert(covers(new_chunks@, v) <==> (covers(before, v) || new_chunks@.last().0 <= v <= new_chunks@.last().1));
                assert(covers(before, v) <==> (covers(old_chunks.take(i as int), v) || (was_found && vmin <= v <= vmax)));
                if covers(old_chunks.take(i + 1), v) {
                    let w = choose|w: int| 0 <= w < i + 1 && (#[trigger] old_chunks.take(i + 1)[w]).0 <= v <= old_chunks.take(i + 1)[w].1;
                    if w < i {
                        assert(old_chunks.take(i as int)[w] == old_chunks.take(i + 1)[w]);
                    } else {
                        assert(old_chunks.take(i + 1)[w] == (a, b));
                    }
                }
                if covers(old_chunks.take(i as int), v) {
                    let w = choose|w: int| 0 <= w < i && (#[trigger] old_chunks.take(i as int)[w]).0 <= v <= old_chunks.take(i as int)[w].1;
                    assert(old_chunks.take(i + 1)[w] == old_chunks.take(i as int)[w]);
                }
                if a <= v <= b {
                    assert(old_chunks.take(i + 1)[i as int] == (a, b));
                }
            }
            i = i + 1;
        }
        let ghost loop_end = new_chunks@;
        assert(old_chunks.take(i as int) =~= old_chunks);
        if !found {
            let ghost before = new_chunks@;
            new_chunks.push((vmin, vmax));
            assert forall|v: int| covers(new_chunks@, v) <==> (covers(before, v) || vmin <= v <= vmax) by {
                if covers(new_chunks@, v) {
                    let w = choose|w: int| 0 <= w < new_chunks@.len() && (#[trigger] new_chunks@[w]).0 <= v <= new_chunks@[w].1;
                    if w < before.len() {
                        assert(before[w] == new_chunks@[w]);
                    }
                }
                if covers(before, v) {
                    let w = choose|w: int| 0 <= w < before.len() && (#[trigger] before[w]).0 <= v <= before[w].1;
                    assert(new_chunks@[w] == before[w]);
                }
                if vmin <= v <= vmax {
                    assert(new_chunks@[new_chunks@.len() - 1] == (vmin, vmax));
                }
            }
        }
        assert(old_chunks.take(i as int) =~= old_chunks);
        assert forall|v: int| covers(new_chunks@, v) <==> (covers(old_chunks, v) || vmin <= v <= vmax) by {
            assert(covers(loop_end, v) <==> (covers(old_chunks.take(i as int), v) || (found && vmin <= v <= vmax)));
            if !found {
                assert(covers(new_chunks@, v) <==> (covers(loop_end, v) || vmin <= v <= vmax));
            }
        }
        assert(new_chunks@ =~= include_spec(old_chunks, vmin, vmax));
        proof {
            lemma_include_pieces_len(old_chunks, vmin, vmax);
        }
        self.chunks = new_chunks;
    }

    /// Removes the values `vmin..=vmax`.
    pub fn exclude(&mut self, vmin: i64, vmax: i64)
        ensures
            forall|v: int|
                covers(final(self).chunks@, v) <==> (covers(old(self).chunks@, v) && !(vmin <= v
                    <= vmax)),
            disjoint_chunks(old(self).chunks@) && vmin <= vmax ==> disjoint_chunks(
                final(self).chunks@,
            ),
            final(self).chunks@ == exclude_spec(old(self).chunks@, vmin, vmax),
            ordered_chunks(old(self).chunks@) && vmin <= vmax ==> ordered_chunks(final(self).chunks@),
    {
        let ghost old_chunks = self.chunks@;
        let ghost wf = disjoint_chunks(old_chunks) && vmin <= vmax;
        let mut new_chunks: Vec<(i64, i64)> = Vec::new();
        let mut i: usize = 0;
        while i < self.chunks.len()
            invariant
                i <= old_chunks.len(),
                self.chunks@ == old_chunks,
                wf == (disjoint_chunks(old_chunks) && vmin <= vmax),
                forall|v: int|
                    covers(new_chunks@, v) <==> (covers(old_chunks.take(i as int), v) && !(vmin
                        <= v <= vmax)),
                wf ==> disjoint_chunks(new_chunks@),
                wf ==> forall|j: int, v: int|
                    0 <= j < new_chunks@.len() && #[trigger] in_chunk(new_chunks@[j], v) ==> covers(
                        old_chunks.take(i as int),
                        v,
                    ),
                new_chunks@ == exclude_spec(old_chunks.take(i as int), vmin, vmax),
            decreases old_chunks.len() - i,
        {
            let (a, b) = self.chunks[i];
            let ghost before = new_chunks@;
            proof {
                assert(old_chunks[i as int] == (a, b));
                assert(old_chunks.take(i + 1).drop_last() =~= old_chunks.take(i as int));
                assert(old_chunks.take(i + 1).last() == (a, b));
            }
            if vmin > b || vmax < a {
                new_chunks.push((a, b));
            } else if vmin <= a && vmax >= b {
            } else if vmin <= a && vmax < b {
                new_chunks.push((vmax + 1, b));
            } else if vmin > a && vmax >= b {
                new_chunks.push((a, vmin - 1));
            } else {
                new_chunks.push((a, vmin - 1));
                new_chunks.push((vmax + 1, b));
            }
            let ghost added = new_chunks@.skip(before.len() as int);
            proof {
                assert(new_chunks@ =~= before + added);
                assert(added =~= exclude_piece((a, b), vmin, vmax));
                // what this chunk contributes
                assert forall|v: int| covers(added, v) <==> (a <= v <= b && !(vmin <= v <= vmax)) by {
                    if covers(added, v) {
                        let w = choose|w: int| 0 <= w < added.len() && (#[trigger] added[w]).0 <= v <= added[w].1;
                    }
                    if a <= v <= b && !(vmin <= v <= vmax) {
                        if added.len() == 1 {
                            assert(added[0].0 <= v <= added[0].1);
                        } else {
                            assert(added[0].0 <= v <= added[0].1 || added[1].0 <= v <= added[1].1);
                        }
                    }
                }
                assert forall|w: int| 0 <= w < added.len() implies (#[trigger] added[w]).0 <= added[w].1
                    || !wf by {}
                assert forall|v: int| covers(old_chunks.take(i + 1), v) <==> (covers(old_chunks.take(i as int), v) || a <= v <= b) by {
                    if covers(old_chunks.take(i + 1), v) {
                        let w = choose|w: int| 0 <= w < i + 1 && (#[trigger] old_chunks.take(i + 1)[w]).0 <= v <= old_chunks.take(i + 1)[w].1;
                        if w < i {
                            assert(old_chunks.take(i as int)[w] == old_chunks.take(i + 1)[w]);
                        } else {
                            assert(old_chunks.take(i + 1)[w] == (a, b));
                        }
                    }
                    if covers(old_chunks.take(i as int), v) {
                        let w = choose|w: int| 0 <= w < i && (#[trigger] old_chunks.take(i as int)[w]).0 <= v <= old_chunks.take(i as int)[w].1;
                        assert(old_chunks.take(i + 1)[w] == old_chunks.take(i as int)[w]);
                    }
                    if a <= v <= b {
                        assert(old_chunks.take(i + 1)[i as int] == (a, b));
                    }
                }
                assert forall|v: int| covers(before + added, v) <==> (covers(before, v) || covers(added, v)) by {
                    if covers(before + added, v) {
                        let w = choose|w: int| 0 <= w < (before + added).len() && (#[trigger] (before + added)[w]).0 <= v <= (before + added)[w].1;
                        if w < before.len() {
                            assert(before[w] == (before + added)[w]);
                        } else {
                            assert(added[w - before.len()] == (before + added)[w]);
                        }
                    }
                    if covers(before, v) {
                        let w = choose|w: int| 0 <= w < before.len() && (#[trigger] before[w]).0 <= v <= before[w].1;
                        assert((before + added)[w] == before[w]);
                    }
                    if covers(added, v) {
                        let w = choose|w: int| 0 <= w < added.len() && (#[trigger] added[w]).0 <= v <= added[w].1;
                        assert((before + added)[w + before.len()] == added[w]);
                    }
                }
                if wf {
                    // a value of this chunk lies in no earlier chunk
                    assert forall|v: int| a <= v <= b implies !covers(old_chunks.take(i as int), v) by {
                        if covers(old_chunks.take(i as int), v) {
                            let w = choose|w: int| 0 <= w < i && (#[trigger] old_chunks.take(i as int)[w]).0 <= v <= old_chunks.take(i as int)[w].1;
                            assert(old_chunks.take(i as int)[w] == old_chunks[w]);
                            assert(old_chunks[w].1 < old_chunks[i as int].0 || old_chunks[i as int].1 < old_chunks[w].0);
                        }
                    }
                    assert forall|j: int, v: int|
                        0 <= j < new_chunks@.len() && #[trigger] in_chunk(new_chunks@[j], v) implies covers(
                            old_chunks.take(i + 1),
                            v,
                        ) by {
                        if j < before.len() {
                            assert(before[j] == new_chunks@[j]);
                            assert(in_chunk(before[j], v));
                            assert(covers(old_chunks.take(i as int), v));
                        } else {
                            assert(added[j - before.len()] == new_chunks@[j]);
                            assert(covers(added, v));
                        }
                        lemma_covers_step(old_chunks, i as int, v);
                    }
                    assert(disjoint_chunks(new_chunks@)) by {
                        assert forall|j: int| 0 <= j < new_chunks@.len() implies (#[trigger] new_chunks@[j]).0 <= new_chunks@[j].1 by {
                            if j < before.len() {
                                assert(before[j] == new_chunks@[j]);
                            }
                        }
                        assert forall|j: int, k: int|
                            0 <= j < k < new_chunks@.len() implies (#[trigger] new_chunks@[j]).1 < (#[trigger] new_chunks@[k]).0
                                || new_chunks@[k].1 < new_chunks@[j].0 by {
                            if k < before.len() {
                                assert(before[j] == new_chunks@[j]);
                                assert(before[k] == new_chunks@[k]);
                            } else if j < before.len() {
                                let x = new_chunks@[j];
                                let y = new_chunks@[k];
                                assert(before[j] == x);
                                assert(added[k - before.len()] == y);
                                if !(x.1 < y.0 || y.1 < x.0) {
                                    let v = if x.0 < y.0 { y.0 as int } else { x.0 as int };
                                    assert(in_chunk(new_chunks@[j], v));
                                    assert(covers(old_chunks.take(i as int), v));
                                    assert(covers(added, v));
                                }
                            }
                        }
                    }
                }
                assert forall|v: int| covers(new_chunks@, v) <==> (covers(old_chunks.take(i + 1), v) && !(vmin
                    <= v <= vmax)) by {
                    assert(covers(before + added, v) <==> (covers(before, v) || covers(added, v)));
                    assert(covers(before, v) <==> (covers(old_chunks.take(i as int), v) && !(vmin <= v <= vmax)));
                    assert(covers(added, v) <==> (a <= v <= b && !(vmin <= v <= vmax)));
                    lemma_covers_step(old_chunks, i as int, v);
                }
            }
            i = i + 1;
        }
        assert(old_chunks.take(i as int) =~= old_chunks);
        proof {
            if ordered_chunks(old_chunks) && vmin <= vmax {
                lemma_exclude_ordered(old_chunks, vmin, vmax);
            }
        }
        self.chunks = new_chunks;
    }

    /// The sum of the range lengths: the number of values held when the
    /// ranges are disjoint (see [`lemma_count_is_size`]).
    pub fn count(&self) -> (res: i64)
        requires
            forall|k: int| 0 <= k <= self.chunks@.len() ==> i64::MIN <= #[trigger] chunk_total(self.chunks@.take(k)) <= i64::MAX,
            forall|k: int| 0 <= k < self.chunks@.len() ==> i64::MIN <= (#[trigger] self.chunks@[k]).1 - self.chunks@[k].0 && self.chunks@[k].1 - self.chunks@[k].0 + 1 <= i64::MAX,
        ensures
            res == chunk_total(self.chunks@),
    {
        let mut res: i64 = 0;
        let mut i: usize = 0;
        while i < self.chunks.len()
            invariant
                i <= self.chunks@.len(),
                forall|k: int| 0 <= k <= self.chunks@.len() ==> i64::MIN <= #[trigger] chunk_total(self.chunks@.take(k)) <= i64::MAX,
                forall|k: int| 0 <= k < self.chunks@.len() ==> i64::MIN <= (#[trigger] self.chunks@[k]).1 - self.chunks@[k].0 && self.chunks@[k].1 - self.chunks@[k].0 + 1 <= i64::MAX,
                res == chunk_total(self.chunks@.take(i as int)),
            decreases self.chunks@.len() - i,
        {
            let (a, b) = self.chunks[i];
            assert(self.chunks@.take(i + 1).drop_last() =~= self.chunks@.take(i as int));
            assert(self.chunks@[i as int] == (a, b));
            assert(i64::MIN <= chunk_total(self.chunks@.take(i + 1)) <= i64::MAX);
            assert(i64::MIN <= b - a && b - a + 1 <= i64::MAX);
            let len = b - a + 1;
            res = res + len;
            i = i + 1;
        }
        assert(self.chunks@.take(i as int) =~= self.chunks@);
        res
    }
}


/// For disjoint, non-empty ranges, the sum of the range lengths is the number
/// of values the ranges hold.
pub proof fn lemma_count_is_size(chunks: Seq<(i64, i64)>)
    requires
        disjoint_chunks(chunks),
    ensures
        chunk_set(chunks).finite(),
        chunk_set(chunks).len() == chunk_total(chunks),
    decreases chunks.len(),
{
    if chunks.len() == 0 {
        assert(chunk_set(chunks) =~= Set::<int>::empty());
    } else {
        let c0 = chunks.drop_last();
        let last = chunks.last();
        assert(last == chunks[chunks.len() - 1]);
        assert(disjoint_chunks(c0)) by {
            assert forall|i: int| 0 <= i < c0.len() implies (#[trigger] c0[i]).0 <= c0[i].1 by {
                assert(c0[i] == chunks[i]);
            }
            assert forall|i: int, j: int| 0 <= i < j < c0.len() implies (#[trigger] c0[i]).1 < (#[trigger] c0[j]).0
                || c0[j].1 < c0[i].0 by {
                assert(c0[i] == chunks[i]);
                assert(c0[j] == chunks[j]);
            }
        }
        lemma_count_is_size(c0);
        let r = vstd::set_lib::set_int_range(last.0 as int, last.1 + 1);
        vstd::set_lib::lemma_int_range(last.0 as int, last.1 + 1);
        assert(chunk_set(chunks) =~= chunk_set(c0) + r) by {
            assert forall|v: int| chunk_set(chunks).contains(v) <==> (chunk_set(c0).contains(v) || r.contains(v)) by {
                if covers(chunks, v) {
                    let w = choose|w: int| 0 <= w < chunks.len() && (#[trigger] chunks[w]).0 <= v <= chunks[w].1;
                    if w < c0.len() {
                        assert(c0[w] == chunks[w]);
                    }
                }
                if covers(c0, v) {
                    let w = choose|w: int| 0 <= w < c0.len() && (#[trigger] c0[w]).0 <= v <= c0[w].1;
                    assert(chunks[w] == c0[w]);
                }
                if r.contains(v) {
                    assert(chunks[chunks.len() - 1].0 <= v <= chunks[chunks.len() - 1].1);
                }
            }
        }
        assert(chunk_set(c0).disjoint(r)) by {
            assert forall|v: int| chunk_set(c0).contains(v) implies !r.contains(v) by {
                let w = choose|w: int| 0 <= w < c0.len() && (#[trigger] c0[w]).0 <= v <= c0[w].1;
                assert(c0[w] == chunks[w]);
                assert(chunks[w].1 < chunks[chunks.len() - 1].0 || chunks[chunks.len() - 1].1 < chunks[w].0);
            }
        }
        vstd::set_lib::lemma_set_disjoint_lens(chunk_set(c0), r);
    }
}

/// The full range `1..=4000` that `Ival::new` starts from is disjoint; as
/// `Ival::exclude` keeps ranges disjoint, `lemma_count_is_size` then makes
/// the count the number of values left.
pub proof fn lemma_new_is_disjoint()
    ensures
        disjoint_chunks(seq![(1i64, 4000i64)]),
{
}

/// Whether every workflow has steps, ends in an untested step and jumps
/// only to workflows that exist (see `rules_closed`).
pub fn rules_closed_exec(rules: &Vec<Rule>) -> (b: bool)
    ensures
        b == rules_closed(rules@),
{
    let mut r: usize = 0;
    while r < rules.len()
        invariant
            r <= rules@.len(),
            forall|q: int|
                0 <= q < r ==> {
                    &&& (#[trigger] rules@[q]).steps@.len() > 0
                    &&& !has_condition(rules@[q].steps@.last().cond)
                    &&& forall|k: int|
                        0 <= k < rules@[q].steps@.len() ==> ((#[trigger] rules@[q].steps@[k]).action@ matches ActionView::Jump(n)
                            ==> rule_index(rules@, n) is Some)
                },
        decreases rules@.len() - r,
    {
        let rule = &rules[r];
        let n = rule.steps.len();
        if n == 0 {
            return false;
        }
        if has_cond(&rule.steps[n - 1].cond) {
            return false;
        }
        let mut k: usize = 0;
        while k < n
            invariant
                k <= n,
                n == rule.steps@.len(),
                r < rules@.len(),
                rules@[r as int] == *rule,
                forall|j: int|
                    0 <= j < k ==> ((#[trigger] rule.steps@[j]).action@ matches ActionView::Jump(nm) ==> rule_index(
                        rules@,
                        nm,
                    ) is Some),
            decreases n - k,
        {
            match &rule.steps[k].action {
                RuleAction::Jump(name) => {
                    if find_rule(rules, name).is_none() {
                        return false;
                    }
                },
                _ => {},
            }
            k = k + 1;
        }
        r = r + 1;
    }
    true
}

/// Every chain of steps from workflow `in` that ends in acceptance (see
/// `accept_paths`), where the workflows are closed and `in` exists; `None`
/// where they are not, or the chains never end.
pub fn accept_paths_checked(rules: &Vec<Rule>) -> (res: Option<Vec<Vec<(usize, usize)>>>)
    ensures
        !rules_closed(rules@) || rule_index(rules@, start_name()) is None ==> res is None,
        rules_closed(rules@) && rule_index(rules@, start_name()) is Some ==> ({
            let start = rule_index(rules@, start_name())->0;
            &&& res matches Some(v) ==> forall|q: Seq<(usize, usize)>|
                paths_view(v@).contains(q) <==> accept_path(rules@, start, q)
            &&& res matches Some(v) ==> paths_view(v@).no_duplicates()
            &&& res is None <==> exists|q: Seq<(usize, usize)>|
                valid_path(rules@, start, q) && q.len() > rules@.len()
        }),
{
    if !rules_closed_exec(rules) {
        return None;
    }
    let name: Vec<char> = vec!['i', 'n'];
    assert(name@ =~= start_name());
    if find_rule(rules, &name).is_none() {
        return None;
    }
    accept_paths(rules)
}

/// Whether a test can be turned into a range cut (see `cuttable`).
fn cuttable_exec(c: Condition, taken: bool) -> (b: bool)
    ensures
        b == cuttable(c, taken),
{
    match c {
        Condition::NoCheck => taken,
        Condition::CheckGreater(k) => {
            match k {
                (Some(v), None, None, None) | (None, Some(v), None, None) | (None, None, Some(v), None) | (
                    None,
                    None,
                    None,
                    Some(v),
                ) => {
                    if taken {
                        1 <= v
                    } else {
                        v < i64::MAX && v + 1 <= 4001
                    }
                },
                _ => false,
            }
        },
        Condition::CheckLess(k) => {
            match k {
                (Some(v), None, None, None) | (None, Some(v), None, None) | (None, None, Some(v), None) | (
                    None,
                    None,
                    None,
                    Some(v),
                ) => {
                    if taken {
                        v <= 4001
                    } else {
                        v > i64::MIN && 1 <= v - 1
                    }
                },
                _ => false,
            }
        },
    }
}

/// The range cuts of a chain (see `path_cuts`), where every test along it
/// can be turned into a cut; `None` where one cannot.
pub fn path_cuts_checked(rules: &Vec<Rule>, path: &Vec<(usize, usize)>) -> (r: Option<Vec<(usize, i64, i64)>>)
    ensures
        match r {
            Some(cuts) => path_cuttable(rules@, path@) && cuts@ == cuts_of(path_conds(rules@, path@)),
            None => !path_cuttable(rules@, path@),
        },
{
    let mut j: usize = 0;
    while j < path.len()
        invariant
            j <= path@.len(),
            forall|jj: int, l: int|
                0 <= jj < j && 0 <= l <= path@[jj].1 ==> cuttable(
                    #[trigger] rules@[path@[jj].0 as int].steps@[l].cond,
                    l == path@[jj].1,
                ) && path@[jj].0 < rules@.len() && path@[jj].1 < rules@[path@[jj].0 as int].steps@.len(),
        decreases path@.len() - j,
    {
        let (ri, si) = path[j];
        if ri >= rules.len() || si >= rules[ri].steps.len() {
            proof {
                if path_cuttable(rules@, path@) {
                    assert(cuttable(rules@[path@[j as int].0 as int].steps@[0].cond, 0 == path@[j as int].1));
                }
            }
            return None;
        }
        let mut l: usize = 0;
        while l <= si
            invariant
                l <= si + 1,
                j < path@.len(),
                path@[j as int] == (ri, si),
                ri < rules@.len(),
                si < rules@[ri as int].steps@.len(),
                si < usize::MAX,
                forall|ll: int| 0 <= ll < l ==> cuttable(#[trigger] rules@[ri as int].steps@[ll].cond, ll == si),
            decreases si + 1 - l,
        {
            if !cuttable_exec(rules[ri].steps[l].cond, l == si) {
                proof {
                    if path_cuttable(rules@, path@) {
                        assert(cuttable(rules@[path@[j as int].0 as int].steps@[l as int].cond, l == path@[j as int].1));
                    }
                }
                return None;
            }
            l = l + 1;
        }
        j = j + 1;
    }
    Some(path_cuts(rules, path))
}

proof fn lemma_cut_slots(cs: Seq<Condition>)
    ensures
        forall|k: int| 0 <= k < cuts_of(cs).len() ==> (#[trigger] cuts_of(cs)[k]).0 < 4,
    decreases cs.len(),
{
    if cs.len() > 0 {
        lemma_cut_slots(cs.drop_last());
        let c = cs.last();
        let prev = cuts_of(cs.drop_last());
        assert(cut_of(c).0 < 4);
        assert forall|k: int| 0 <= k < cuts_of(cs).len() implies (#[trigger] cuts_of(cs)[k]).0 < 4 by {
            if k < prev.len() {
                assert(cuts_of(cs)[k] == prev[k]);
            }
        }
    }
}

/// A part with ratings in `1..=4000` follows an accepting chain exactly when
/// each of its four ratings is one of the values of that rating that the
/// chain lets through (see `cut_free`): the parts a chain lets through are
/// those made of such values, which `chain_counts` counts rating by rating.
pub proof fn lemma_chain_lets_through(rules: Seq<Rule>, p: Seq<(usize, usize)>, part: Part)
    requires
        path_cuttable(rules, p),
        ratings_in_range(part),
    ensures
        follows(rules, p, part) <==> ({
            let cuts = cuts_of(path_conds(rules, p));
            &&& cut_free(cuts, 0, part.x as int)
            &&& cut_free(cuts, 1, part.m as int)
            &&& cut_free(cuts, 2, part.a as int)
            &&& cut_free(cuts, 3, part.s as int)
        }),
{
    let cuts = cuts_of(path_conds(rules, p));
    lemma_cuts_select_path(rules, p, part);
    lemma_cut_slots(path_conds(rules, p));
    let all_free = cut_free(cuts, 0, part.x as int) && cut_free(cuts, 1, part.m as int) && cut_free(cuts, 2, part.a as int)
        && cut_free(cuts, 3, part.s as int);
    if all_free {
        assert forall|i: int| 0 <= i < cuts.len() implies !in_cut(part, #[trigger] cuts[i]) by {
            let c = cuts[i];
            assert(c.0 < 4);
            if c.0 == 0 {
                assert(cut_free(cuts, 0, part.x as int));
            } else if c.0 == 1 {
                assert(cut_free(cuts, 1, part.m as int));
            } else if c.0 == 2 {
                assert(cut_free(cuts, 2, part.a as int));
            } else {
                assert(cut_free(cuts, 3, part.s as int));
            }
        }
    }
    if forall|i: int| 0 <= i < cuts.len() ==> !in_cut(part, #[trigger] cuts[i]) {
        assert forall|i: int| 0 <= i < cuts.len() && (#[trigger] cuts[i]).0 == 0usize implies !(cuts[i].1 <= part.x <= cuts[i].2) by {
            assert(!in_cut(part, cuts[i]));
        }
        assert forall|i: int| 0 <= i < cuts.len() && (#[trigger] cuts[i]).0 == 1usize implies !(cuts[i].1 <= part.m <= cuts[i].2) by {
            assert(!in_cut(part, cuts[i]));
        }
        assert forall|i: int| 0 <= i < cuts.len() && (#[trigger] cuts[i]).0 == 2usize implies !(cuts[i].1 <= part.a <= cuts[i].2) by {
            assert(!in_cut(part, cuts[i]));
        }
        assert forall|i: int| 0 <= i < cuts.len() && (#[trigger] cuts[i]).0 == 3usize implies !(cuts[i].1 <= part.s <= cuts[i].2) by {
            assert(!in_cut(part, cuts[i]));
        }
    }
}

proof fn lemma_chains_agree(rules: Seq<Rule>, start: int, p: Seq<(usize, usize)>, q: Seq<(usize, usize)>, part: Part, k: int)
    requires
        valid_path(rules, start, p),
        valid_path(rules, start, q),
        follows(rules, p, part),
        follows(rules, q, part),
        0 <= k < p.len(),
        k < q.len(),
    ensures
        forall|j: int| 0 <= j <= k ==> #[trigger] p[j] == q[j],
    decreases k,
{
    if k > 0 {
        lemma_chains_agree(rules, start, p, q, part, k - 1);
        let a = p[k - 1];
        assert(q[k - 1] == a);
        assert(step_at(rules, p[k - 1].0 as int, p[k - 1].1 as int).action@ matches ActionView::Jump(n) && rule_index(rules, n) == Some(p[k].0 as int));
        assert(step_at(rules, q[k - 1].0 as int, q[k - 1].1 as int).action@ matches ActionView::Jump(n) && rule_index(rules, n) == Some(q[k].0 as int));
    } else {
        assert(p[0].0 == start && q[0].0 == start);
    }
    let r = p[k].0 as int;
    assert(q[k].0 == p[k].0);
    if p[k].1 < q[k].1 {
        assert(passes(rules[r].steps@[p[k].1 as int].cond, part));
        assert(!passes(rules[q[k].0 as int].steps@[p[k].1 as int].cond, part));
    }
    if q[k].1 < p[k].1 {
        assert(passes(rules[r].steps@[q[k].1 as int].cond, part));
        assert(!passes(rules[p[k].0 as int].steps@[q[k].1 as int].cond, part));
    }
}

/// A part follows at most one accepting chain: the chains split the accepted
/// parts among them, so their counts add up without counting a part twice.
pub proof fn lemma_one_chain(rules: Seq<Rule>, start: int, p: Seq<(usize, usize)>, q: Seq<(usize, usize)>, part: Part)
    requires
        accept_path(rules, start, p),
        accept_path(rules, start, q),
        follows(rules, p, part),
        follows(rules, q, part),
    ensures
        p == q,
{
    let m = if p.len() < q.len() { p.len() - 1 } else { q.len() - 1 };
    lemma_chains_agree(rules, start, p, q, part, m);
    if p.len() < q.len() {
        assert(p[m] == q[m]);
        assert(p.last() == p[m]);
    } else if q.len() < p.len() {
        assert(p[m] == q[m]);
        assert(q.last() == q[m]);
    }
    assert(p =~= q);
}

/// The counts of values of each rating that an accepting chain lets through:
/// those of `1..=4000` that none of the chain's range cuts holds.
pub open spec fn chain_counts(rules: Seq<Rule>, ps: Seq<Seq<(usize, usize)>>) -> Seq<(u64, u64, u64, u64)> {
    ps.map_values(|p: Seq<(usize, usize)>| {
        let cuts = cuts_of(path_conds(rules, p));
        (
            free_count(cuts, 0, 4000) as u64,
            free_count(cuts, 1, 4000) as u64,
            free_count(cuts, 2, 4000) as u64,
            free_count(cuts, 3, 4000) as u64,
        )
    })
}

/// One plus, over every chain of steps from workflow `in` that ends in
/// acceptance (each taken once, in some order), the product of the counts of
/// values of each rating that the chain lets through (see `chain_counts`
/// and `total_combinations`). The workflows must be closed, `in` must
/// exist, and every test of an accepting chain must be one that can be cut
/// into a range; `None` when the chains never end.
pub fn accepted_total(rules: &Vec<Rule>) -> (r: Option<u128>)
    requires
        rules_closed(rules@),
        rule_index(rules@, start_name()) is Some,
        forall|q: Seq<(usize, usize)>|
            #[trigger] accept_path(rules@, rule_index(rules@, start_name())->0, q) ==> path_cuttable(rules@, q),
    ensures
        match r {
            Some(v) => exists|ps: Seq<Seq<(usize, usize)>>|
                #![trigger chain_counts(rules@, ps)]
                ps.no_duplicates() && (forall|q: Seq<(usize, usize)>|
                    #![trigger ps.contains(q)]
                    ps.contains(q) <==> accept_path(rules@, rule_index(rules@, start_name())->0, q))
                    && v == total_combinations(chain_counts(rules@, ps)),
            None => exists|q: Seq<(usize, usize)>|
                valid_path(rules@, rule_index(rules@, start_name())->0, q) && q.len() > rules@.len(),
        },
{
    let ghost start = rule_index(rules@, start_name())->0;
    let paths = match accept_paths_checked(rules) {
        Some(p) => p,
        None => {
            return None;
        },
    };
    let ghost pv = paths_view(paths@);
    let mut counts: Vec<(u64, u64, u64, u64)> = Vec::new();
    let mut i: usize = 0;
    while i < paths.len()
        invariant
            i <= paths@.len(),
            pv == paths_view(paths@),
            forall|q: Seq<(usize, usize)>| pv.contains(q) ==> accept_path(rules@, start, q),
            forall|q: Seq<(usize, usize)>| #[trigger] accept_path(rules@, start, q) ==> path_cuttable(rules@, q),
            counts@ == chain_counts(rules@, pv.take(i as int)),
            forall|k: int| 0 <= k < counts@.len() ==> (#[trigger] counts@[k]).0 <= 4000 && counts@[k].1 <= 4000
                && counts@[k].2 <= 4000 && counts@[k].3 <= 4000,
        decreases paths@.len() - i,
    {
        assert(pv[i as int] == paths@[i as int]@);
        assert(pv.contains(pv[i as int]));
        let cuts = match path_cuts_checked(rules, &paths[i]) {
            Some(c) => c,
            None => {
                assert(false);
                return None;
            },
        };
        let c = (free_values(&cuts, 0), free_values(&cuts, 1), free_values(&cuts, 2), free_values(&cuts, 3));
        let ghost before = counts@;
        counts.push(c);
        assert(pv.take(i + 1) =~= pv.take(i as int).push(pv[i as int]));
        assert(counts@ =~= chain_counts(rules@, pv.take(i + 1)));
        i = i + 1;
    }
    assert(pv.take(i as int) =~= pv);
    Some(combine_counts(&counts))
}

} // verus!
