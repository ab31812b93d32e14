//! Pulse propagation: a network of flip-flops and conjunctions wired by
//! name. Modules refer to each other by index into the network.
use vstd::prelude::*;
use vstd::arithmetic::power2::pow2;
use crate::text::{chars_equal, chars_of, lines, lines_spec, rows, split_pat, split_pat_spec};

verus! {

/// What a module does with a pulse.
#[derive(Debug, Clone, Copy, PartialEq, Eq, Structural)]
pub enum ModuleKind {
    Debug,
    Broadcast,
    FlipFlop,
    Conjunction,
}

/// A module of the network; `inputs` and `outputs` are indices of modules.
pub struct Module {
    pub name: Vec<char>,
    pub kind: ModuleKind,
    pub flip_storage: bool,
    pub conj_storage: Vec<bool>,
    pub inputs: Vec<usize>,
    pub outputs: Vec<usize>,
}

/// A module as plain values.
pub struct ModuleView {
    pub name: Seq<char>,
    pub kind: ModuleKind,
    pub flip_storage: bool,
    pub conj_storage: Seq<bool>,
    pub inputs: Seq<usize>,
    pub outputs: Seq<usize>,
}

impl View for Module {
    type V = ModuleView;

    open spec fn view(&self) -> ModuleView {
        ModuleView {
            name: self.name@,
            kind: self.kind,
            flip_storage: self.flip_storage,
            conj_storage: self.conj_storage@,
            inputs: self.inputs@,
            outputs: self.outputs@,
        }
    }
}

/// A fresh module: off, remembering nothing, with no links.
pub open spec fn fresh(name: Seq<char>, kind: ModuleKind) -> ModuleView {
    ModuleView {
        name,
        kind,
        flip_storage: false,
        conj_storage: Seq::empty(),
        inputs: Seq::empty(),
        outputs: Seq::empty(),
    }
}

/// A conjunction remembers one pulse per input; other modules remember none.
pub open spec fn module_wf(m: ModuleView) -> bool {
    if m.kind == ModuleKind::Conjunction {
        m.conj_storage.len() == m.inputs.len()
    } else {
        m.conj_storage.len() == 0
    }
}

/// The position of the first `x` in `s` (`s.len()` when there is none).
pub open spec fn first_pos(s: Seq<usize>, x: usize) -> int
    decreases s.len(),
{
    if s.len() == 0 {
        0
    } else if s[0] == x {
        0
    } else {
        1 + first_pos(s.skip(1), x)
    }
}

proof fn lemma_first_pos(s: Seq<usize>, x: usize)
    ensures
        0 <= first_pos(s, x) <= s.len(),
        first_pos(s, x) < s.len() <==> s.contains(x),
        first_pos(s, x) < s.len() ==> s[first_pos(s, x)] == x,
        forall|k: int| 0 <= k < first_pos(s, x) ==> s[k] != x,
    decreases s.len(),
{
    if s.len() > 0 && s[0] != x {
        lemma_first_pos(s.skip(1), x);
        if s.contains(x) {
            let k = choose|k: int| 0 <= k < s.len() && s[k] == x;
            assert(s.skip(1)[k - 1] == x);
        }
        if s.skip(1).contains(x) {
            let k = choose|k: int| 0 <= k < s.skip(1).len() && s.skip(1)[k] == x;
            assert(s[k + 1] == x);
        }
        assert forall|k: int| 0 <= k < first_pos(s, x) implies s[k] != x by {
            if k > 0 {
                assert(s[k] == s.skip(1)[k - 1]);
            }
        }
    } else if s.len() > 0 {
        assert(s.contains(x));
    }
}

/// What a module does with a pulse of `value` from module `source`: its new
/// state and the pulse it sends on, if any. A flip-flop ignores high pulses
/// and toggles on low ones; a conjunction remembers the pulse for its input
/// and sends low only when it remembers high for every input.
pub open spec fn perform_spec(m: ModuleView, value: bool, source: usize) -> (ModuleView, Option<bool>) {
    match m.kind {
        ModuleKind::Debug => (m, Some(value)),
        ModuleKind::Broadcast => (m, Some(value)),
        ModuleKind::FlipFlop => if value {
            (m, None)
        } else {
            (ModuleView { flip_storage: !m.flip_storage, ..m }, Some(!m.flip_storage))
        },
        ModuleKind::Conjunction => {
            let c = m.conj_storage.update(first_pos(m.inputs, source), value);
            (ModuleView { conj_storage: c, ..m }, Some(exists|k: int| 0 <= k < c.len() && !c[k]))
        },
    }
}

/// A pulse can be handed to the module: a conjunction only takes pulses from
/// its inputs.
pub open spec fn accepts(m: ModuleView, source: usize) -> bool {
    m.kind == ModuleKind::Conjunction ==> m.inputs.contains(source)
}

impl Module {
    /// A fresh module.
    pub fn new(name: Vec<char>, kind: ModuleKind) -> (m: Self)
        ensures
            m@ == fresh(name@, kind),
    {
        Module {
            name,
            kind,
            flip_storage: false,
            conj_storage: Vec::new(),
            inputs: Vec::new(),
            outputs: Vec::new(),
        }
    }

    /// Handles a pulse of `value` from module `source`.
    pub fn perform(&mut self, value: bool, source: usize) -> (r: Option<bool>)
        requires
            module_wf(old(self)@),
            accepts(old(self)@, source),
        ensures
            (final(self)@, r) == perform_spec(old(self)@, value, source),
            module_wf(final(self)@),
    {
        match self.kind {
            ModuleKind::Debug => {
                return Some(value);
            },
            ModuleKind::Broadcast => {
                return Some(value);
            },
            ModuleKind::FlipFlop => {
                if value {
                    return None;
                }
                self.flip_storage = !self.flip_storage;
                return Some(self.flip_storage);
            },
            ModuleKind::Conjunction => {
                proof {
                    lemma_first_pos(self.inputs@, source);
                }
                let mut input_index: usize = 0;
                while input_index < self.inputs.len() && self.inputs[input_index] != source
                    invariant
                        input_index <= self.inputs@.len(),
                        forall|k: int| 0 <= k < input_index ==> self.inputs@[k] != source,
                        self.inputs@.contains(source),
                        first_pos(self.inputs@, source) < self.inputs@.len(),
                        self.inputs@[first_pos(self.inputs@, source)] == source,
                        forall|k: int| 0 <= k < first_pos(self.inputs@, source) ==> self.inputs@[k] != source,
                    decreases self.inputs@.len() - input_index,
                {
                    input_index = input_index + 1;
                }
                assert(input_index == first_pos(self.inputs@, source));
                self.conj_storage.set(input_index, value);
                let mut k: usize = 0;
                while k < self.conj_storage.len()
                    invariant
                        k <= self.conj_storage@.len(),
                        forall|j: int| 0 <= j < k ==> self.conj_storage@[j],
                        old(self)@.kind == ModuleKind::Conjunction,
                        module_wf(old(self)@),
                        module_wf(self@),
                        self@ == (ModuleView {
                            conj_storage: old(self)@.conj_storage.update(first_pos(old(self)@.inputs, source), value),
                            ..old(self)@
                        }),
                    decreases self.conj_storage@.len() - k,
                {
                    if !self.conj_storage[k] {
                        return Some(true);
                    }
                    k = k + 1;
                }
                return Some(false);
            },
        }
    }

    /// Records module `input` as an input; a conjunction starts out
    /// remembering a low pulse for it.
    pub fn push_input(&mut self, input: usize)
        requires
            module_wf(old(self)@),
        ensures
            final(self)@ == (ModuleView {
                inputs: old(self)@.inputs.push(input),
                conj_storage: if old(self)@.kind == ModuleKind::Conjunction {
                    old(self)@.conj_storage.push(false)
                } else {
                    old(self)@.conj_storage
                },
                ..old(self)@
            }),
            module_wf(final(self)@),
    {
        self.inputs.push(input);
        if self.kind == ModuleKind::Conjunction {
            self.conj_storage.push(false);
        }
    }
}

/// The modules as plain values.
pub open spec fn views(ms: Seq<Module>) -> Seq<ModuleView> {
    ms.map_values(|m: Module| m@)
}

/// The pulses a module sends: one to each output, in order.
pub open spec fn sent(module: usize, outputs: Seq<usize>, v: bool) -> Seq<(usize, usize, bool)> {
    outputs.map_values(|o: usize| (module, o, v))
}

/// Hands a pulse of `value` from `source` to `module` and queues the pulses
/// it sends, each as (sender, receiver, value).
pub fn pulse(
    modules: &mut Vec<Module>,
    module: usize,
    value: bool,
    source: usize,
    queue: &mut Vec<(usize, usize, bool)>,
)
    requires
        module < old(modules)@.len(),
        module_wf(old(modules)@[module as int]@),
        accepts(old(modules)@[module as int]@, source),
    ensures
        final(modules)@.len() == old(modules)@.len(),
        forall|k: int| 0 <= k < old(modules)@.len() && k != module ==> (#[trigger] final(modules)@[k])@ == old(modules)@[k]@,
        final(modules)@[module as int]@ == perform_spec(old(modules)@[module as int]@, value, source).0,
        final(queue)@ == old(queue)@ + match perform_spec(old(modules)@[module as int]@, value, source).1 {
            Some(v) => sent(module, old(modules)@[module as int]@.outputs, v),
            None => Seq::empty(),
        },
{
    let mut m = modules.remove(module);
    let r = m.perform(value, source);
    let ghost before = old(modules)@;
    if let Some(new_v) = r {
        let mut k: usize = 0;
        while k < m.outputs.len()
            invariant
                k <= m.outputs@.len(),
                queue@ == old(queue)@ + sent(module, m.outputs@, new_v).take(k as int),
            decreases m.outputs@.len() - k,
        {
            queue.push((module, m.outputs[k], new_v));
            assert(sent(module, m.outputs@, new_v).take(k + 1) =~= sent(module, m.outputs@, new_v).take(k as int).push((module, m.outputs@[k as int], new_v)));
            k = k + 1;
        }
        assert(sent(module, m.outputs@, new_v).take(k as int) =~= sent(module, m.outputs@, new_v));
    } else {
        assert(queue@ =~= old(queue)@ + Seq::<(usize, usize, bool)>::empty());
    }
    modules.insert(module, m);
    assert forall|k: int| 0 <= k < before.len() && k != module implies (#[trigger] modules@[k])@ == before[k]@ by {
        if k < module {
            assert(modules@[k] == before[k]);
        } else {
            assert(modules@[k] == before[k]);
        }
    }
}

/// The characters that show the state of a module: nothing for an output,
/// `>` for the broadcaster, `+` or `_` for a flip-flop that is on or off,
/// and `*` or `.` for each input a conjunction remembers as high or low.
pub open spec fn state_chars(m: ModuleView) -> Seq<char> {
    match m.kind {
        ModuleKind::Debug => Seq::empty(),
        ModuleKind::Broadcast => seq!['>'],
        ModuleKind::FlipFlop => if m.flip_storage {
            seq!['+']
        } else {
            seq!['_']
        },
        ModuleKind::Conjunction => m.conj_storage.map_values(|b: bool| if b { '*' } else { '.' }),
    }
}

/// The state of the modules, one after the other.
pub open spec fn network_state(ms: Seq<ModuleView>) -> Seq<char>
    decreases ms.len(),
{
    if ms.len() == 0 {
        Seq::empty()
    } else {
        network_state(ms.drop_last()) + state_chars(ms.last())
    }
}

/// Writes out the state of the modules.
pub fn modules_state(modules: &Vec<Module>) -> (r: Vec<char>)
    ensures
        r@ == network_state(views(modules@)),
{
    let mut result: Vec<char> = Vec::new();
    let mut i: usize = 0;
    while i < modules.len()
        invariant
            i <= modules@.len(),
            result@ == network_state(views(modules@.take(i as int))),
        decreases modules@.len() - i,
    {
        assert(views(modules@.take(i + 1)).drop_last() =~= views(modules@.take(i as int)));
        let mm = &modules[i];
        match mm.kind {
            ModuleKind::Debug => {},
            ModuleKind::Broadcast => {
                result.push('>');
            },
            ModuleKind::FlipFlop => {
                result.push(if mm.flip_storage { '+' } else { '_' });
            },
            ModuleKind::Conjunction => {
                let ghost start = result@;
                let mut k: usize = 0;
                while k < mm.conj_storage.len()
                    invariant
                        k <= mm.conj_storage@.len(),
                        result@ == start + state_chars(mm@).take(k as int),
                        mm.kind == ModuleKind::Conjunction,
                    decreases mm.conj_storage@.len() - k,
                {
                    result.push(if mm.conj_storage[k] { '*' } else { '.' });
                    assert(state_chars(mm@).take(k + 1) =~= state_chars(mm@).take(k as int).push(if mm.conj_storage@[k as int] { '*' } else { '.' }));
                    k = k + 1;
                }
                assert(state_chars(mm@).take(k as int) =~= state_chars(mm@));
            },
        }
        assert(result@ =~= network_state(views(modules@.take(i as int))) + state_chars(mm@));
        i = i + 1;
    }
    assert(modules@.take(i as int) =~= modules@);
    result
}

/// The arrow between a module and its outputs.
pub open spec fn arrow() -> Seq<char> {
    seq![' ', '-', '>', ' ']
}

/// The separator between output names.
pub open spec fn list_sep() -> Seq<char> {
    seq![',', ' ']
}

/// The name of the broadcaster.
pub open spec fn broadcaster_name() -> Seq<char> {
    seq!['b', 'r', 'o', 'a', 'd', 'c', 'a', 's', 't', 'e', 'r']
}

/// The name under which the output module is known.
pub open spec fn output_key() -> Seq<char> {
    seq!['r', 'x']
}

/// The output module's own name.
pub open spec fn output_name() -> Seq<char> {
    seq!['O', 'U', 'T', 'P', 'U', 'T']
}

/// The kind a module line's first character announces.
pub open spec fn kind_of(c: char) -> Option<ModuleKind> {
    if c == 'b' {
        Some(ModuleKind::Broadcast)
    } else if c == '%' {
        Some(ModuleKind::FlipFlop)
    } else if c == '&' {
        Some(ModuleKind::Conjunction)
    } else {
        None
    }
}

/// A module line `kname -> out1, out2`: the kind from its first character
/// (`b`, `%` or `&`), the name (all of `broadcaster`, otherwise what follows
/// the first character) and the output names; `None` for anything else.
pub open spec fn module_line_spec(line: Seq<char>) -> Option<(ModuleKind, Seq<char>, Seq<Seq<char>>)> {
    let parts = split_pat_spec(line, arrow());
    if parts.len() < 2 || parts[0].len() == 0 {
        None
    } else {
        let left = parts[0];
        match kind_of(left[0]) {
            None => None,
            Some(k) => Some(
                (
                    k,
                    if left == broadcaster_name() {
                        left
                    } else {
                        left.skip(1)
                    },
                    split_pat_spec(parts[1], list_sep()),
                ),
            ),
        }
    }
}

fn arrow_chars() -> (v: Vec<char>)
    ensures
        v@ == arrow(),
{
    let v = vec![' ', '-', '>', ' '];
    assert(v@ =~= arrow());
    v
}

fn sep_chars() -> (v: Vec<char>)
    ensures
        v@ == list_sep(),
{
    let v = vec![',', ' '];
    assert(v@ =~= list_sep());
    v
}

fn broadcaster_chars() -> (v: Vec<char>)
    ensures
        v@ == broadcaster_name(),
{
    let v = vec!['b', 'r', 'o', 'a', 'd', 'c', 'a', 's', 't', 'e', 'r'];
    assert(v@ =~= broadcaster_name());
    v
}

/// Reads a module line.
pub fn parse_module_line(line: &[char]) -> (r: Option<(ModuleKind, Vec<char>, Vec<Vec<char>>)>)
    ensures
        match r {
            Some((k, n, o)) => module_line_spec(line@) == Some((k, n@, rows(o@))),
            None => module_line_spec(line@) is None,
        },
{
    let arrow = arrow_chars();
    let parts = split_pat(line, arrow.as_slice());
    if parts.len() < 2 {
        return None;
    }
    assert(rows(parts@)[0] == parts@[0]@ && rows(parts@)[1] == parts@[1]@);
    if parts[0].len() == 0 {
        return None;
    }
    let left = &parts[0];
    let kind = if left[0] == 'b' {
        ModuleKind::Broadcast
    } else if left[0] == '%' {
        ModuleKind::FlipFlop
    } else if left[0] == '&' {
        ModuleKind::Conjunction
    } else {
        return None;
    };
    let bname = broadcaster_chars();
    let name = if chars_equal(left, &bname) {
        left.clone()
    } else {
        let mut nm: Vec<char> = Vec::new();
        let mut k: usize = 1;
        while k < left.len()
            invariant
                1 <= k <= left@.len(),
                nm@ == left@.subrange(1, k as int),
            decreases left@.len() - k,
        {
            nm.push(left[k]);
            k = k + 1;
        }
        assert(nm@ =~= left@.skip(1));
        nm
    };
    let sep = sep_chars();
    let outs = split_pat(parts[1].as_slice(), sep.as_slice());
    Some((kind, name, outs))
}

/// The first position of `name` in `names`.
pub open spec fn index_in(names: Seq<Seq<char>>, name: Seq<char>) -> Option<int>
    decreases names.len(),
{
    if names.len() == 0 {
        None
    } else if names[0] == name {
        Some(0)
    } else {
        match index_in(names.skip(1), name) {
            Some(i) => Some(i + 1),
            None => None,
        }
    }
}

proof fn lemma_index_in(names: Seq<Seq<char>>, name: Seq<char>)
    ensures
        match index_in(names, name) {
            Some(i) => 0 <= i < names.len() && names[i] == name && forall|k: int| 0 <= k < i ==> names[k] != name,
            None => forall|k: int| 0 <= k < names.len() ==> names[k] != name,
        },
    decreases names.len(),
{
    if names.len() > 0 && names[0] != name {
        lemma_index_in(names.skip(1), name);
        assert forall|k: int| 0 < k < names.len() implies names[k] == names.skip(1)[k - 1] by {}
    }
}

/// Looks `name` up in `names`.
pub fn find_name(names: &Vec<Vec<char>>, name: &Vec<char>) -> (r: Option<usize>)
    ensures
        match r {
            Some(i) => index_in(rows(names@), name@) == Some(i as int),
            None => index_in(rows(names@), name@) is None,
        },
{
    proof {
        lemma_index_in(rows(names@), name@);
    }
    let mut i: usize = 0;
    while i < names.len()
        invariant
            i <= names@.len(),
            forall|k: int| 0 <= k < i ==> rows(names@)[k] != name@,
            match index_in(rows(names@), name@) {
                Some(j) => 0 <= j < names@.len() && rows(names@)[j] == name@ && forall|k: int| 0 <= k < j ==> rows(names@)[k] != name@,
                None => forall|k: int| 0 <= k < names@.len() ==> rows(names@)[k] != name@,
            },
        decreases names@.len() - i,
    {
        assert(rows(names@)[i as int] == names@[i as int]@);
        if chars_equal(&names[i], name) {
            return Some(i);
        }
        i = i + 1;
    }
    None
}

/// One module line read: kind, name and output names.
pub type Entry = (ModuleKind, Seq<char>, Seq<Seq<char>>);

/// The names known so far, each module's kind and name, and each module's
/// output names, after registering the lines `entries` in order. The output
/// module comes first, known as `rx`. A line whose name is known replaces
/// that module; another line adds a module.
pub open spec fn registry(entries: Seq<Entry>) -> (Seq<Seq<char>>, Seq<(ModuleKind, Seq<char>)>, Seq<Seq<Seq<char>>>)
    decreases entries.len(),
{
    if entries.len() == 0 {
        (seq![output_key()], seq![(ModuleKind::Debug, output_name())], seq![Seq::empty()])
    } else {
        let prev = registry(entries.drop_last());
        let e = entries.last();
        match index_in(prev.0, e.1) {
            Some(i) => (prev.0, prev.1.update(i, (e.0, e.1)), prev.2.update(i, e.2)),
            None => (prev.0.push(e.1), prev.1.push((e.0, e.1)), prev.2.push(e.2)),
        }
    }
}

proof fn lemma_registry_len(entries: Seq<Entry>)
    ensures
        registry(entries).0.len() == registry(entries).1.len(),
        registry(entries).1.len() == registry(entries).2.len(),
        1 <= registry(entries).0.len() <= entries.len() + 1,
    decreases entries.len(),
{
    if entries.len() > 0 {
        lemma_registry_len(entries.drop_last());
        lemma_index_in(registry(entries.drop_last()).0, entries.last().1);
    }
}

/// Where an output name leads: the module known by it, or else the extra
/// output module at index `n`.
pub open spec fn target(names: Seq<Seq<char>>, o: Seq<char>, n: int) -> usize {
    match index_in(names, o) {
        Some(k) => k as usize,
        None => n as usize,
    }
}

/// The modules an output list leads to.
pub open spec fn targets(names: Seq<Seq<char>>, outs: Seq<Seq<char>>) -> Seq<usize> {
    outs.map_values(|o: Seq<char>| target(names, o, names.len() as int))
}

/// Module `src` once for each of `ts` that is `j`.
pub open spec fn hits(src: usize, ts: Seq<usize>, j: usize) -> Seq<usize>
    decreases ts.len(),
{
    if ts.len() == 0 {
        Seq::empty()
    } else {
        hits(src, ts.drop_last(), j) + if ts.last() == j {
            seq![src]
        } else {
            Seq::empty()
        }
    }
}

/// The inputs of module `j` from the first `i` modules: each module once for
/// every time its outputs lead to `j`, in order.
pub open spec fn inputs_upto(names: Seq<Seq<char>>, outs: Seq<Seq<Seq<char>>>, i: int, j: usize) -> Seq<usize>
    decreases i,
{
    if i <= 0 {
        Seq::empty()
    } else {
        inputs_upto(names, outs, i - 1, j) + hits((i - 1) as usize, targets(names, outs[i - 1]), j)
    }
}

/// The linked network for the registered modules: each named module with its
/// inputs and outputs, then the extra output module that unknown output names
/// lead to.
pub open spec fn network(entries: Seq<Entry>) -> Seq<ModuleView> {
    let (names, mods, outs) = registry(entries);
    let n = names.len() as int;
    Seq::new(
        (n + 1) as nat,
        |i: int|
            if i < n {
                let ins = inputs_upto(names, outs, n, i as usize);
                ModuleView {
                    name: mods[i].1,
                    kind: mods[i].0,
                    flip_storage: false,
                    conj_storage: if mods[i].0 == ModuleKind::Conjunction {
                        Seq::new(ins.len(), |k: int| false)
                    } else {
                        Seq::empty()
                    },
                    inputs: ins,
                    outputs: targets(names, outs[i]),
                }
            } else {
                fresh(output_name(), ModuleKind::Debug)
            },
    )
}

/// Every line is a module line.
pub open spec fn module_lines_ok(ls: Seq<Seq<char>>) -> bool {
    forall|k: int| 0 <= k < ls.len() ==> (#[trigger] module_line_spec(ls[k])) is Some
}

/// The entries of the module lines.
pub open spec fn entries_of(ls: Seq<Seq<char>>) -> Seq<Entry> {
    ls.map_values(|l: Seq<char>| module_line_spec(l)->0)
}

/// The modules as linked after the outputs of the first `i` modules and the
/// first `k` outputs of module `i`.
pub open spec fn partly_linked(
    names: Seq<Seq<char>>,
    mods: Seq<(ModuleKind, Seq<char>)>,
    outs: Seq<Seq<Seq<char>>>,
    i: int,
    k: int,
) -> Seq<ModuleView> {
    let n = names.len() as int;
    Seq::new(
        n as nat,
        |j: int|
            {
                let ins = inputs_upto(names, outs, i, j as usize) + if i < n {
                    hits(i as usize, targets(names, outs[i]).take(k), j as usize)
                } else {
                    Seq::empty()
                };
                ModuleView {
                    name: mods[j].1,
                    kind: mods[j].0,
                    flip_storage: false,
                    conj_storage: if mods[j].0 == ModuleKind::Conjunction {
                        Seq::new(ins.len(), |t: int| false)
                    } else {
                        Seq::empty()
                    },
                    inputs: ins,
                    outputs: if j < i {
                        targets(names, outs[j])
                    } else if j == i {
                        targets(names, outs[j]).take(k)
                    } else {
                        Seq::empty()
                    },
                }
            },
    )
}

fn output_chars() -> (v: Vec<char>)
    ensures
        v@ == output_name(),
{
    let v = vec!['O', 'U', 'T', 'P', 'U', 'T'];
    assert(v@ =~= output_name());
    v
}

/// Reads the module list and links the modules by name: the network and the
/// names it knows, the extra output module last; `None` when a line is not a
/// module line.
pub fn build_network(data: &str) -> (r: Option<(Vec<Module>, Vec<Vec<char>>)>)
    ensures
        match r {
            Some((ms, names)) => module_lines_ok(lines_spec(data@)) && views(ms@) == network(
                entries_of(lines_spec(data@)),
            ) && rows(names@) == registry(entries_of(lines_spec(data@))).0,
            None => !module_lines_ok(lines_spec(data@)),
        },
{
    let chars = chars_of(data);
    let ls = lines(chars.as_slice());
    let ghost lv = rows(ls@);
    let ghost es = entries_of(lv);
    let mut names: Vec<Vec<char>> = vec![vec!['r', 'x']];
    let mut modules: Vec<Module> = vec![Module::new(output_chars(), ModuleKind::Debug)];
    let mut modoutputs: Vec<Vec<Vec<char>>> = vec![Vec::new()];
    proof {
        assert(rows(names@) =~= registry(es.take(0)).0);
        assert(names@[0]@ =~= output_key());
    }
    let mut i: usize = 0;
    while i < ls.len()
        invariant
            i <= ls@.len(),
            lv == rows(ls@),
            lv == lines_spec(data@),
            es == entries_of(lv),
            module_lines_ok(lv.take(i as int)),
            rows(names@) == registry(es.take(i as int)).0,
            modules@.len() == names@.len(),
            modoutputs@.len() == names@.len(),
            forall|k: int| 0 <= k < modules@.len() ==> (#[trigger] modules@[k])@ == fresh(registry(es.take(i as int)).1[k].1, registry(es.take(i as int)).1[k].0),
            forall|k: int| 0 <= k < modoutputs@.len() ==> rows((#[trigger] modoutputs@[k])@) == registry(es.take(i as int)).2[k],
        decreases ls@.len() - i,
    {
        proof {
            lemma_registry_len(es.take(i as int));
        }
        assert(lv[i as int] == ls@[i as int]@);
        let (kind, name, outs) = match parse_module_line(ls[i].as_slice()) {
            Some(e) => e,
            None => {
                assert(!module_lines_ok(lv)) by {
                    assert(module_line_spec(lv[i as int]) is None);
                }
                return None;
            },
        };
        let ghost prev = registry(es.take(i as int));
        assert(es.take(i + 1).drop_last() =~= es.take(i as int));
        assert(es.take(i + 1).last() == (kind, name@, rows(outs@)));
        proof {
            lemma_index_in(rows(names@), name@);
        }
        match find_name(&names, &name) {
            Some(idx) => {
                modules.set(idx, Module::new(name, kind));
                modoutputs.set(idx, outs);
            },
            None => {
                names.push(name.clone());
                modules.push(Module::new(name, kind));
                modoutputs.push(outs);
                assert(rows(names@) =~= prev.0.push(name@));
            },
        }
        assert(module_lines_ok(lv.take(i + 1))) by {
            assert forall|k: int| 0 <= k < i + 1 implies (#[trigger] module_line_spec(lv.take(i + 1)[k])) is Some by {
                if k < i {
                    assert(lv.take(i + 1)[k] == lv.take(i as int)[k]);
                }
            }
        }
        i = i + 1;
    }
    assert(lv.take(i as int) =~= lv);
    assert(es.take(i as int) =~= es);
    let ghost reg = registry(es);
    let ghost nv = reg.0;
    let ghost mv = reg.1;
    let ghost ov = reg.2;
    proof {
        lemma_registry_len(es);
    }
    let n = names.len();
    assert(nv.len() == n);
    proof {
        let p0 = partly_linked(nv, mv, ov, 0, 0);
        assert forall|j: int| 0 <= j < n implies (#[trigger] views(modules@)[j]) == p0[j] by {
            assert(p0[j].inputs =~= Seq::<usize>::empty());
            assert(p0[j].outputs =~= Seq::<usize>::empty());
            assert(p0[j].conj_storage =~= Seq::<bool>::empty());
        }
        assert(views(modules@) =~= p0);
    }
    let mut i: usize = 0;
    while i < n
        invariant
            i <= n,
            n == names@.len(),
            rows(names@) == nv,
            nv.len() == mv.len() && mv.len() == ov.len(),
            modoutputs@.len() == n,
            modules@.len() == n,
            nv.len() == n,
            forall|k: int| 0 <= k < modoutputs@.len() ==> rows((#[trigger] modoutputs@[k])@) == ov[k],
            views(modules@) == partly_linked(nv, mv, ov, i as int, 0),
        decreases n - i,
    {
        let row = &modoutputs[i];
        let ghost ts = targets(nv, ov[i as int]);
        let mut k: usize = 0;
        while k < row.len()
            invariant
                i < n,
                n == names@.len(),
                rows(names@) == nv,
                nv.len() == mv.len() && mv.len() == ov.len(),
                rows(row@) == ov[i as int],
                ts == targets(nv, ov[i as int]),
                k <= row@.len(),
                modules@.len() == n,
                nv.len() == n,
                views(modules@) == partly_linked(nv, mv, ov, i as int, k as int),
            decreases row@.len() - k,
        {
            assert(rows(row@)[k as int] == row@[k as int]@);
            let t = match find_name(&names, &row[k]) {
                Some(idx) => idx,
                None => n,
            };
            assert(ts[k as int] == t);
            let ghost before = views(modules@);
            let mut m = Module::new(Vec::new(), ModuleKind::Debug);
            std::mem::swap(&mut m, &mut modules[i]);
            m.outputs.push(t);
            std::mem::swap(&mut m, &mut modules[i]);
            assert(views(modules@) =~= before.update(i as int, ModuleView { outputs: before[i as int].outputs.push(t), ..before[i as int] }));
            if t < n {
                let ghost mid = views(modules@);
                let mut m2 = Module::new(Vec::new(), ModuleKind::Debug);
                std::mem::swap(&mut m2, &mut modules[t]);
                assert(m2@ == mid[t as int]);
                assert(module_wf(m2@));
                m2.push_input(i);
                let ghost pushed = m2@;
                std::mem::swap(&mut m2, &mut modules[t]);
                assert(views(modules@) =~= mid.update(t as int, pushed));
            }
            proof {
                let after = partly_linked(nv, mv, ov, i as int, k + 1);
                assert(ts.take(k + 1) =~= ts.take(k as int).push(t));
                assert(ts.take(k + 1).drop_last() =~= ts.take(k as int));
                assert(ts.take(k + 1).last() == t);
                assert forall|j: int| 0 <= j < n implies (#[trigger] views(modules@)[j]) == after[j] by {
                    assert(hits(i as usize, ts.take(k + 1), j as usize) =~= hits(i as usize, ts.take(k as int), j as usize) + if t == j as usize {
                        seq![i]
                    } else {
                        Seq::<usize>::empty()
                    });
                    if j == t as int {
                        assert(views(modules@)[j].conj_storage =~= after[j].conj_storage);
                        assert(views(modules@)[j].inputs =~= after[j].inputs);
                    } else {
                        assert(views(modules@)[j].inputs =~= after[j].inputs);
                    }
                    if j == i as int {
                        assert(views(modules@)[j].outputs =~= after[j].outputs);
                    }
                }
                assert(views(modules@) =~= after);
            }
            k = k + 1;
        }
        proof {
            assert(ts.take(k as int) =~= ts);
            let after = partly_linked(nv, mv, ov, i + 1, 0);
            assert forall|j: int| 0 <= j < n implies (#[trigger] views(modules@)[j]) == after[j] by {
                assert(views(modules@)[j].inputs =~= after[j].inputs);
                assert(views(modules@)[j].outputs =~= after[j].outputs);
            }
            assert(views(modules@) =~= after);
        }
        i = i + 1;
    }
    modules.push(Module::new(output_chars(), ModuleKind::Debug));
    proof {
        let net = network(es);
        assert forall|j: int| 0 <= j < n + 1 implies (#[trigger] views(modules@)[j]) == net[j] by {
            if j < n {
                let pl = partly_linked(nv, mv, ov, n as int, 0);
                assert(views(modules@)[j] == pl[j]);
                assert(pl[j].inputs =~= inputs_upto(nv, ov, n as int, j as usize));
                assert(net[j].inputs == inputs_upto(nv, ov, n as int, j as usize));
                assert(views(modules@)[j].inputs =~= net[j].inputs);
            }
        }
        assert(views(modules@) =~= net);
    }
    Some((modules, names))
}

/// Every output of every module is a module of the network.
pub open spec fn network_ok(ms: Seq<ModuleView>) -> bool {
    forall|a: int, k: int| 0 <= a < ms.len() && 0 <= k < ms[a].outputs.len() ==> (#[trigger] ms[a].outputs[k]) < ms.len()
}

proof fn lemma_network_ok(es: Seq<Entry>)
    ensures
        network_ok(network(es)),
        network(es).len() == registry(es).0.len() + 1,
{
    lemma_registry_len(es);
    let ms = network(es);
    let (names, mods, outs) = registry(es);
    assert forall|a: int, k: int| 0 <= a < ms.len() && 0 <= k < ms[a].outputs.len() implies (#[trigger] ms[a].outputs[k]) < ms.len() by {
        if a < names.len() {
            let o = outs[a][k];
            lemma_index_in(names, o);
            assert(ms[a].outputs[k] == target(names, o, names.len() as int));
        }
    }
}

/// The flip-flops among `outs`, in order.
pub open spec fn flip_flops_of(ms: Seq<ModuleView>, outs: Seq<usize>) -> Seq<usize>
    decreases outs.len(),
{
    if outs.len() == 0 {
        Seq::empty()
    } else {
        flip_flops_of(ms, outs.drop_last()) + if ms[outs.last() as int].kind == ModuleKind::FlipFlop {
            seq![outs.last()]
        } else {
            Seq::empty()
        }
    }
}

/// `1 << i` in an `i64` (bit 63 is the sign bit).
pub open spec fn shl_one(i: int) -> int {
    if i < 63 {
        pow2(i as nat) as int
    } else {
        i64::MIN as int
    }
}

/// The number a chain of flip-flops spells out, from step `i` on: step `i`
/// sets bit `i` where the module leads to no flip-flop (and the chain ends
/// there) or to one flip-flop and something else as well; the chain goes on
/// to the one flip-flop. `None` where a module leads to two flip-flops or
/// more, a bit past the 64th would be set, or the step count runs out of
/// `i32`.
pub open spec fn chain_from(ms: Seq<ModuleView>, node: usize, i: int) -> Option<int>
    decreases i32::MAX - i,
{
    if i >= i32::MAX || i < 0 {
        None
    } else {
        let outs = ms[node as int].outputs;
        let f = flip_flops_of(ms, outs);
        if f.len() == 0 {
            if i < 64 {
                Some(shl_one(i))
            } else {
                None
            }
        } else if f.len() == 1 {
            if outs.len() > 1 && i >= 64 {
                None
            } else {
                match chain_from(ms, f[0], i + 1) {
                    Some(r) => Some(
                        r + if outs.len() > 1 {
                            shl_one(i)
                        } else {
                            0
                        },
                    ),
                    None => None,
                }
            }
        } else {
            None
        }
    }
}

fn shl_one_i64(i: i32) -> (r: i64)
    requires
        0 <= i < 64,
    ensures
        r == shl_one(i as int),
{
    let b: u64 = 1u64 << (i as u64);
    proof {
        vstd::bits::lemma_u64_pow2_no_overflow(i as nat);
        vstd::bits::lemma_u64_shl_is_mul(1, i as u64);
        vstd::arithmetic::power2::lemma2_to64_rest();
    }
    if i < 63 {
        proof {
            vstd::arithmetic::power2::lemma_pow2_strictly_increases(i as nat, 63);
        }
        b as i64
    } else {
        assert(b == (1u64 << 63u64));
        assert(((1u64 << 63u64) as i64) == i64::MIN) by (bit_vector);
        b as i64
    }
}

proof fn lemma_bit_step(num: int, i: int)
    requires
        0 <= i <= 63,
        0 <= num < pow2(i as nat),
    ensures
        i < 63 ==> 0 <= num + shl_one(i) < pow2((i + 1) as nat) && pow2((i + 1) as nat) <= i64::MAX + 1,
        i < 63 ==> 0 <= num < pow2((i + 1) as nat),
        i64::MIN <= num + shl_one(i) <= i64::MAX,
{
    vstd::arithmetic::power2::lemma2_to64();
    vstd::arithmetic::power2::lemma2_to64_rest();
    if i < 63 {
        vstd::arithmetic::power2::lemma_pow2_adds(i as nat, 1);
        if i + 1 < 63 {
            vstd::arithmetic::power2::lemma_pow2_strictly_increases((i + 1) as nat, 63);
        }
    }
}

/// The flip-flops among the outputs of a module.
fn flip_flop_outputs(modules: &Vec<Module>, node: usize) -> (ff: Vec<usize>)
    requires
        node < modules@.len(),
        network_ok(views(modules@)),
    ensures
        ff@ == flip_flops_of(views(modules@), modules@[node as int].outputs@),
{
    let outs = &modules[node].outputs;
    let ghost ms = views(modules@);
    assert(ms[node as int].outputs == outs@);
    let mut ff: Vec<usize> = Vec::new();
    let mut k: usize = 0;
    while k < outs.len()
        invariant
            k <= outs@.len(),
            ms == views(modules@),
            node < modules@.len(),
            ms[node as int].outputs == outs@,
            network_ok(ms),
            ff@ == flip_flops_of(ms, outs@.take(k as int)),
        decreases outs@.len() - k,
    {
        let o = outs[k];
        assert(o < modules@.len()) by {
            assert(ms[node as int].outputs[k as int] == o);
        }
        assert(outs@.take(k + 1).drop_last() =~= outs@.take(k as int));
        assert(ms[o as int].kind == modules@[o as int].kind);
        if modules[o].kind == ModuleKind::FlipFlop {
            ff.push(o);
        }
        k = k + 1;
    }
    assert(outs@.take(k as int) =~= outs@);
    ff
}

proof fn lemma_flip_flops_bound(ms: Seq<ModuleView>, outs: Seq<usize>)
    ensures
        flip_flops_of(ms, outs).len() <= outs.len(),
        forall|k: int| 0 <= k < flip_flops_of(ms, outs).len() ==> outs.contains(#[trigger] flip_flops_of(ms, outs)[k]),
    decreases outs.len(),
{
    if outs.len() > 0 {
        lemma_flip_flops_bound(ms, outs.drop_last());
        let f = flip_flops_of(ms, outs);
        let g = flip_flops_of(ms, outs.drop_last());
        assert forall|k: int| 0 <= k < f.len() implies outs.contains(#[trigger] f[k]) by {
            if k < g.len() {
                assert(f[k] == g[k]);
                let j = choose|j: int| 0 <= j < outs.drop_last().len() && outs.drop_last()[j] == g[k];
                assert(outs[j] == g[k]);
            } else {
                assert(outs[outs.len() - 1] == f[k]);
            }
        }
    }
}

/// The number the chain of flip-flops from module `start` spells out.
pub fn chain_number(modules: &Vec<Module>, start: usize) -> (r: Option<i64>)
    requires
        start < modules@.len(),
        network_ok(views(modules@)),
    ensures
        match r {
            Some(v) => chain_from(views(modules@), start, 0) == Some(v as int),
            None => chain_from(views(modules@), start, 0) is None,
        },
{
    let ghost ms = views(modules@);
    let mut node = start;
    let mut num: i64 = 0;
    let mut i: i32 = 0;
    proof {
        vstd::arithmetic::power2::lemma2_to64();
    }
    loop
        invariant
            ms == views(modules@),
            network_ok(ms),
            node < modules@.len(),
            0 <= i < i32::MAX,
            i <= 63 ==> 0 <= num < pow2(i as nat),
            chain_from(ms, start, 0) == match chain_from(ms, node, i as int) {
                Some(t) => Some(num + t),
                None => None::<int>,
            },
        decreases i32::MAX - i,
    {
        let ff = flip_flop_outputs(modules, node);
        let n_outs = modules[node].outputs.len();
        assert(ms[node as int].outputs.len() == n_outs);
        proof {
            lemma_flip_flops_bound(ms, ms[node as int].outputs);
        }
        if ff.len() == 0 {
            if i >= 64 {
                return None;
            }
            let b = shl_one_i64(i);
            proof {
                lemma_bit_step(num as int, i as int);
            }
            num = num + b;
            return Some(num);
        } else if ff.len() == 1 {
            if n_outs > 1 {
                if i >= 64 {
                    return None;
                }
                let b = shl_one_i64(i);
                proof {
                    lemma_bit_step(num as int, i as int);
                }
                num = num + b;
            } else {
                proof {
                    if i <= 63 {
                        lemma_bit_step(num as int, i as int);
                    }
                }
            }
            let next = ff[0];
            assert(ms[node as int].outputs.contains(next));
            assert(next < modules@.len()) by {
                let j = choose|j: int| 0 <= j < ms[node as int].outputs.len() && ms[node as int].outputs[j] == next;
                assert(ms[node as int].outputs[j] < ms.len());
            }
            node = next;
        } else {
            return None;
        }
        if i == i32::MAX - 1 {
            assert(chain_from(ms, node, i + 1) is None);
            return None;
        }
        i = i + 1;
    }
}

/// The module at step `i` of the chain from `start`: each step goes on to
/// the first flip-flop among the outputs of the module before.
pub open spec fn chain_node(ms: Seq<ModuleView>, start: usize, i: nat) -> usize
    decreases i,
{
    if i == 0 {
        start
    } else {
        flip_flops_of(ms, ms[chain_node(ms, start, (i - 1) as nat) as int].outputs)[0]
    }
}

/// Bit `i` of `v` in two's complement.
pub open spec fn bit_set(v: int, i: nat) -> bool {
    (v / pow2(i) as int) % 2 == 1
}

proof fn lemma_chain_past_end(ms: Seq<ModuleView>, node: usize, i: int)
    requires
        i >= 64,
    ensures
        chain_from(ms, node, i) is None,
    decreases i32::MAX - i,
{
    if i < i32::MAX {
        let f = flip_flops_of(ms, ms[node as int].outputs);
        if f.len() == 1 {
            lemma_chain_past_end(ms, f[0], i + 1);
        }
    }
}

/// The number from step `j` on is a multiple of `2^j`, and the multiple is
/// odd exactly when the module at step `j` sets its bit.
proof fn lemma_chain_quotient(ms: Seq<ModuleView>, node: usize, j: int) -> (q: int)
    requires
        0 <= j <= 63,
        chain_from(ms, node, j) is Some,
    ensures
        chain_from(ms, node, j)->0 == q * pow2(j as nat),
        flip_flops_of(ms, ms[node as int].outputs).len() <= 1,
        (q % 2 == 1) == (ms[node as int].outputs.len() > 1 || flip_flops_of(ms, ms[node as int].outputs).len() == 0),
        flip_flops_of(ms, ms[node as int].outputs).len() == 0 && j < 63 ==> q == 1,
    decreases 64 - j,
{
    let outs = ms[node as int].outputs;
    let f = flip_flops_of(ms, outs);
    vstd::arithmetic::power2::lemma2_to64();
    vstd::arithmetic::power2::lemma2_to64_rest();
    if f.len() == 0 {
        if j < 63 {
            1
        } else {
            -1
        }
    } else {
        if j == 63 {
            lemma_chain_past_end(ms, f[0], 64);
        }
        let r = chain_from(ms, f[0], j + 1)->0;
        let q1 = lemma_chain_quotient(ms, f[0], j + 1);
        let c: int = if outs.len() > 1 {
            1
        } else {
            0
        };
        let p = pow2(j as nat) as int;
        vstd::arithmetic::power2::lemma_pow2_unfold((j + 1) as nat);
        assert(r == q1 * (2 * p));
        assert(chain_from(ms, node, j)->0 == r + c * p);
        assert(q1 * (2 * p) + c * p == (2 * q1 + c) * p) by (nonlinear_arith);
        assert((2 * q1 + c) % 2 == c) by (nonlinear_arith)
            requires
                0 <= c <= 1,
        ;
        2 * q1 + c
    }
}

/// Following the chain to step `j` leaves the number from step `j` on and
/// the bits below `j`.
proof fn lemma_chain_prefix(ms: Seq<ModuleView>, start: usize, j: nat) -> (p: int)
    requires
        chain_from(ms, start, 0) is Some,
        j <= 63,
        forall|k: nat| k < j ==> (#[trigger] flip_flops_of(ms, ms[chain_node(ms, start, k) as int].outputs)).len() == 1,
    ensures
        0 <= p < pow2(j),
        chain_from(ms, chain_node(ms, start, j), j as int) == Some(chain_from(ms, start, 0)->0 - p),
    decreases j,
{
    vstd::arithmetic::power2::lemma2_to64();
    vstd::arithmetic::power2::lemma2_to64_rest();
    if j == 0 {
        0
    } else {
        let k = (j - 1) as nat;
        let p0 = lemma_chain_prefix(ms, start, k);
        let node = chain_node(ms, start, k);
        let outs = ms[node as int].outputs;
        let f = flip_flops_of(ms, outs);
        assert(f.len() == 1);
        assert(chain_node(ms, start, j) == f[0]);
        let c: int = if outs.len() > 1 {
            1
        } else {
            0
        };
        vstd::arithmetic::power2::lemma_pow2_unfold(j);
        if k < 63 {
            vstd::arithmetic::power2::lemma_pow2_strictly_increases(k, 63);
        }
        assert(shl_one(k as int) == pow2(k));
        p0 + c * pow2(k)
    }
}

/// Bit `i` of the chain number from `start` is set exactly when the module
/// at step `i` of the chain has more than one output or no flip-flop among
/// its outputs (the end of the chain); and no bit above the end of the
/// chain is set. Each earlier step leads to exactly one flip-flop.
pub proof fn lemma_chain_bits(ms: Seq<ModuleView>, start: usize, i: nat)
    requires
        chain_from(ms, start, 0) is Some,
        i < 64,
        forall|k: nat| k < i ==> (#[trigger] flip_flops_of(ms, ms[chain_node(ms, start, k) as int].outputs)).len() == 1,
    ensures
        bit_set(chain_from(ms, start, 0)->0, i) == (ms[chain_node(ms, start, i) as int].outputs.len() > 1
            || flip_flops_of(ms, ms[chain_node(ms, start, i) as int].outputs).len() == 0),
        flip_flops_of(ms, ms[chain_node(ms, start, i) as int].outputs).len() == 0 && i < 63 ==> 0
            <= chain_from(ms, start, 0)->0 < pow2(i + 1),
{
    let v = chain_from(ms, start, 0)->0;
    let node = chain_node(ms, start, i);
    let p = lemma_chain_prefix(ms, start, i);
    let q = lemma_chain_quotient(ms, node, i as int);
    let d = pow2(i) as int;
    assert(v == q * d + p);
    vstd::arithmetic::div_mod::lemma_fundamental_div_mod_converse(v, d, q, p);
    vstd::arithmetic::power2::lemma_pow2_unfold(i + 1);
}

/// The product of the values, in order.
pub open spec fn product(vals: Seq<int>) -> int
    decreases vals.len(),
{
    if vals.len() == 0 {
        1
    } else {
        product(vals.drop_last()) * vals.last()
    }
}

/// Every partial product fits in an `i64`.
pub open spec fn products_fit(vals: Seq<int>) -> bool {
    forall|k: int| 0 <= k <= vals.len() ==> i64::MIN <= #[trigger] product(vals.take(k)) <= i64::MAX
}

/// The chain numbers of the modules `starts`; `None` when one has none.
pub open spec fn chain_numbers(ms: Seq<ModuleView>, starts: Seq<usize>) -> Option<Seq<int>>
    decreases starts.len(),
{
    if starts.len() == 0 {
        Some(Seq::empty())
    } else {
        match (chain_numbers(ms, starts.drop_last()), chain_from(ms, starts.last(), 0)) {
            (Some(vs), Some(v)) => Some(vs.push(v)),
            _ => None,
        }
    }
}

proof fn lemma_chain_numbers_prefix(ms: Seq<ModuleView>, s: Seq<usize>, k: int)
    requires
        0 <= k <= s.len(),
        chain_numbers(ms, s.take(k)) is None,
    ensures
        chain_numbers(ms, s) is None,
    decreases s.len() - k,
{
    if k < s.len() {
        assert(s.take(k + 1).drop_last() =~= s.take(k));
        lemma_chain_numbers_prefix(ms, s, k + 1);
    } else {
        assert(s.take(k) =~= s);
    }
}

/// The product of the chain numbers of the broadcaster's outputs in the
/// network the module lines describe; `None` when a line is not a module
/// line, there is no broadcaster, a chain has no number, or a partial
/// product does not fit in an `i64`.
pub open spec fn chains_product(ls: Seq<Seq<char>>) -> Option<int> {
    if !module_lines_ok(ls) {
        None
    } else {
        let es = entries_of(ls);
        let ms = network(es);
        match index_in(registry(es).0, broadcaster_name()) {
            None => None,
            Some(b) => match chain_numbers(ms, ms[b].outputs) {
                Some(vs) => if products_fit(vs) {
                    Some(product(vs))
                } else {
                    None
                },
                None => None,
            },
        }
    }
}

/// Reads the module list (every line a module line) and multiplies the
/// numbers spelt out by the chains of flip-flops that start at the
/// broadcaster's outputs.
pub fn chains_total(data: &str) -> (r: Option<i64>)
    requires
        module_lines_ok(lines_spec(data@)),
    ensures
        match r {
            Some(v) => chains_product(lines_spec(data@)) == Some(v as int),
            None => chains_product(lines_spec(data@)) is None,
        },
{
    let (modules, names) = match build_network(data) {
        Some(x) => x,
        None => {
            return None;
        },
    };
    let ghost es = entries_of(lines_spec(data@));
    let ghost ms = views(modules@);
    proof {
        lemma_network_ok(es);
        lemma_index_in(rows(names@), broadcaster_name());
    }
    let bname = broadcaster_chars();
    let b = match find_name(&names, &bname) {
        Some(b) => b,
        None => {
            return None;
        },
    };
    let starts = &modules[b].outputs;
    assert(ms[b as int].outputs == starts@);
    let mut totals: Vec<i64> = Vec::new();
    let mut k: usize = 0;
    while k < starts.len()
        invariant
            k <= starts@.len(),
            ms == views(modules@),
            network_ok(ms),
            b < ms.len(),
            ms[b as int].outputs == starts@,
            chain_numbers(ms, starts@.take(k as int)) == Some(totals@.map_values(|t: i64| t as int)),
            es == entries_of(lines_spec(data@)),
            module_lines_ok(lines_spec(data@)),
            ms == network(es),
            index_in(registry(es).0, broadcaster_name()) == Some(b as int),
        decreases starts@.len() - k,
    {
        assert(starts@.take(k + 1).drop_last() =~= starts@.take(k as int));
        let s = starts[k];
        assert(s < modules@.len()) by {
            assert(ms[b as int].outputs[k as int] == s);
        }
        match chain_number(&modules, s) {
            Some(v) => {
                totals.push(v);
                assert(totals@.map_values(|t: i64| t as int) =~= chain_numbers(ms, starts@.take(k as int))->0.push(v as int));
            },
            None => {
                proof {
                    lemma_chain_numbers_prefix(ms, starts@, k + 1);
                }
                return None;
            },
        }
        k = k + 1;
    }
    assert(starts@.take(k as int) =~= starts@);
    let ghost vs = totals@.map_values(|t: i64| t as int);
    let mut acc: i64 = 1;
    let mut j: usize = 0;
    while j < totals.len()
        invariant
            j <= totals@.len(),
            vs == totals@.map_values(|t: i64| t as int),
            acc == product(vs.take(j as int)),
            forall|t: int| 0 <= t <= j ==> i64::MIN <= #[trigger] product(vs.take(t)) <= i64::MAX,
            es == entries_of(lines_spec(data@)),
            module_lines_ok(lines_spec(data@)),
            ms == network(es),
            index_in(registry(es).0, broadcaster_name()) == Some(b as int),
            chain_numbers(ms, ms[b as int].outputs) == Some(vs),
        decreases totals@.len() - j,
    {
        assert(vs.take(j + 1).drop_last() =~= vs.take(j as int));
        match acc.checked_mul(totals[j]) {
            Some(p) => {
                acc = p;
            },
            None => {
                assert(!products_fit(vs)) by {
                    assert(!(i64::MIN <= product(vs.take(j + 1)) <= i64::MAX));
                }
                return None;
            },
        }
        j = j + 1;
    }
    assert(vs.take(j as int) =~= vs);
    Some(acc)
}

} // verus!
