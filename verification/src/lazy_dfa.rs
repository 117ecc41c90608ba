//! Matching with a lazily built automaton.
//!
//! A state of the automaton is an ordered list of ready program counters. The step from
//! a state over a byte is computed once and kept in a flat table, so that a step of the
//! scan is a table lookup. States are built on demand; past a cap on their number the
//! virtual machine takes over.
//!
//! A state does not know where its threads began. A list of starts runs beside it: each
//! step in the table keeps, for every counter of its destination, the index of the
//! thread of the source that it comes from.
//!
//! Patterns with a literal prefix go to the prefilter and patterns with an anchor to the
//! virtual machine.
use crate::ast::{alt_of, cat_of, Node, Pattern, Regex};
use crate::automaton::{
    arms, is_ready, lemma_contains_append, lemma_room, lemma_walk, lemma_walk_append,
    lemma_without_contains, no_asserts, preferred_end, room, walk, without, Op,
};
use crate::lockstep::{
    accepted, begun, best_of, close, counters, fallback, lemma_close_anywhere, lemma_close_counters,
    lemma_close_more, lemma_close_relabel, lemma_run_begins, lemma_run_ends, lemma_run_goes_on,
    lemma_step_cut, lemma_step_more, lemma_step_relabel, lemma_vm_find_valid, or_else, relabel,
    step_roots, vm_find,
};
use crate::parser::pattern_in;
use crate::prefilter;
use crate::scan::{
    end_pos, found, lemma_scan_step, leftmost, ranges, record, scan_all, scan_from, Span,
};
use crate::thompson::{
    self, compile, lemma_compile, lemma_room_shrinks, ops, program_of, size, vm_matches,
    well_formed, Inst, Program,
};
use vstd::prelude::*;
use vstd::utf8::encode_utf8;

verus! {

/// Marks an entry of a table that has not been computed.
const UNCOMPUTED: u32 = u32::MAX;

/// Above this many states the virtual machine takes over.
pub const STATE_CAP: usize = 10_000;

/// Whether the pattern holds an anchor.
pub open spec fn has_anchors(pattern: Pattern) -> bool
    decreases pattern,
{
    match pattern {
        Pattern::Start | Pattern::End => true,
        Pattern::Empty | Pattern::Fail | Pattern::Class(_) => false,
        Pattern::Cat(a, b) => has_anchors(*a) || has_anchors(*b),
        Pattern::Alt(a, b) => has_anchors(*a) || has_anchors(*b),
        Pattern::Last(p) => has_anchors(*p),
        Pattern::Star(p) => has_anchors(*p),
        Pattern::Plus(p) => has_anchors(*p),
        Pattern::Quest(p) => has_anchors(*p),
    }
}

/// Whether the pattern holds an anchor. Such a pattern depends on the position.
fn has_anchors_ast(node: &Node) -> (yes: bool)
    ensures
        yes == has_anchors(node@),
    decreases *node, 0int,
{
    match node {
        Node::StartAnchor | Node::EndAnchor => true,
        Node::Empty | Node::Class(_) => false,
        Node::Concat(parts) => any_has_anchors(parts, 0),
        Node::Alt(parts) => any_has_anchors(parts, 0),
        Node::Star(inner) => has_anchors_ast(inner),
        Node::Plus(inner) => has_anchors_ast(inner),
        Node::Quest(inner) => has_anchors_ast(inner),
    }
}

/// Whether one of `parts` from the `i`-th on holds an anchor.
fn any_has_anchors(parts: &Vec<Node>, i: usize) -> (yes: bool)
    ensures
        yes == has_anchors(cat_of(parts@, i as int)),
        yes == has_anchors(alt_of(parts@, i as int)),
    decreases parts@, parts.len() - i,
{
    if i >= parts.len() {
        false
    } else {
        let rest = any_has_anchors(parts, i + 1);
        has_anchors_ast(&parts[i]) || rest
    }
}

/// The code of a pattern without anchors does not depend on the position.
proof fn lemma_code_without_anchors(pattern: Pattern, base: int)
    requires
        !has_anchors(pattern),
    ensures
        no_asserts(compile(pattern, base)),
    decreases pattern,
{
    lemma_compile(pattern, base);
    match pattern {
        Pattern::Cat(a, b) => {
            lemma_code_without_anchors(*a, base);
            lemma_code_without_anchors(*b, base + size(*a));
            lemma_compile(*a, base);
        },
        Pattern::Alt(a, b) => {
            lemma_code_without_anchors(*a, base + 1);
            lemma_code_without_anchors(*b, base + size(*a) + 2);
            lemma_compile(*a, base + 1);
        },
        Pattern::Last(p) => {
            lemma_code_without_anchors(*p, base);
        },
        Pattern::Star(p) => {
            lemma_code_without_anchors(*p, base + 1);
            lemma_compile(*p, base + 1);
        },
        Pattern::Plus(p) => {
            lemma_code_without_anchors(*p, base);
            lemma_compile(*p, base);
        },
        Pattern::Quest(p) => {
            lemma_code_without_anchors(*p, base + 1);
            lemma_compile(*p, base + 1);
        },
        _ => {},
    }
}

/// Machine integers as mathematical ones.
spec fn nums(list: Seq<usize>) -> Seq<int> {
    list.map_values(|x: usize| x as int)
}

/// The indices that hold `true`.
spec fn flags(bits: Seq<bool>) -> Set<int> {
    Set::new(|i: int| 0 <= i < bits.len() && bits[i])
}

/// Close `pc` over the instructions that consume nothing, and push the ready ones in
/// order of priority. `seen` holds the counters entered before.
fn build_closure(prog: &Vec<Inst>, pc: usize, out: &mut Vec<usize>, seen: &mut Vec<bool>)
    requires
        well_formed(ops(prog@)),
        no_asserts(ops(prog@)),
        pc < prog.len(),
        old(seen).len() == prog.len(),
    ensures
        final(seen).len() == prog.len(),
        ({
            let w = walk(ops(prog@), 0, 0, seq![pc as int], flags(old(seen)@));
            flags(final(seen)@) == w.seen && nums(final(out)@) == nums(old(out)@) + w.ready
        }),
    decreases room(prog.len() as int, flags(old(seen)@)),
{
    let ghost p = ops(prog@);
    let ghost n = prog.len() as int;
    let ghost was = flags(seen@);
    let ghost before = nums(out@);
    let ghost rest: Seq<int> = seq![pc as int].drop_first();
    assert(rest =~= Seq::<int>::empty());
    assert(before + Seq::<int>::empty() =~= before);
    if seen[pc] {
        assert(walk(p, 0, 0, rest, was).seen == was);
        return;
    }
    seen.set(pc, true);
    let ghost here = flags(seen@);
    proof {
        assert(here =~= was.insert(pc as int));
        lemma_room(n, was, pc as int);
        assert(p[pc as int] == prog@[pc as int]@);
        assert(arms(p, 0, 0, pc as int) + rest =~= arms(p, 0, 0, pc as int));
        assert(walk(p, 0, 0, Seq::<int>::empty(), here).seen == here);
    }
    match &prog[pc] {
        Inst::Jmp(target) => {
            build_closure(prog, *target, out, seen);
        },
        Inst::Split(x, y) => {
            build_closure(prog, *x, out, seen);
            let ghost w1 = walk(p, 0, 0, seq![*x as int], here);
            let ghost w2 = walk(p, 0, 0, seq![*y as int], w1.seen);
            proof {
                lemma_walk(p, 0, 0, seq![*x as int], here);
                lemma_room_shrinks(n, here, w1.seen);
                lemma_walk_append(p, 0, 0, seq![*x as int], seq![*y as int], here);
                assert(seq![*x as int] + seq![*y as int] =~= seq![*x as int, *y as int]);
            }
            build_closure(prog, *y, out, seen);
            assert(nums(out@) =~= before + (w1.ready + w2.ready));
        },
        _ => {
            out.push(pc);
            assert(seq![pc as int] + Seq::<int>::empty() =~= seq![pc as int]);
            assert(nums(out@) =~= before + seq![pc as int]);
        },
    }
}

/// Append to `pcs` what of `closure` is not present yet, and mark it present.
fn append_fresh(closure: &Vec<usize>, present: &mut Vec<bool>, pcs: &mut Vec<usize>)
    requires
        nums(closure@).no_duplicates(),
        forall|i: int| 0 <= i < closure.len() ==> (#[trigger] closure[i]) < old(present).len(),
        forall|x: int| #[trigger] flags(old(present)@).contains(x) <==> nums(old(pcs)@).contains(x),
    ensures
        final(present).len() == old(present).len(),
        nums(final(pcs)@) == nums(old(pcs)@) + without(
            nums(closure@),
            nums(old(pcs)@).to_set(),
        ),
        forall|x: int| #[trigger]
            flags(final(present)@).contains(x) <==> nums(final(pcs)@).contains(x),
{
    let ghost before = nums(pcs@);
    let ghost list = nums(closure@);
    let mut j: usize = 0;
    proof {
        assert(before + Seq::<int>::empty() =~= before);
        assert(list.take(0) =~= Seq::<int>::empty());
    }
    while j < closure.len()
        invariant
            j <= closure.len(),
            list == nums(closure@),
            list.no_duplicates(),
            present.len() == old(present).len(),
            forall|i: int| 0 <= i < closure.len() ==> (#[trigger] closure[i]) < present.len(),
            nums(pcs@) == before + without(list.take(j as int), before.to_set()),
            forall|x: int| #[trigger] flags(present@).contains(x) <==> nums(pcs@).contains(x),
        decreases closure.len() - j,
    {
        let ready: usize = closure[j];
        let ghost was = nums(pcs@);
        let ghost was_present = flags(present@);
        proof {
            assert(list.take(j + 1) =~= list.take(j as int).push(ready as int));
            lemma_without_push(list.take(j as int), ready as int, before.to_set());
            lemma_without_contains(list.take(j as int), before.to_set(), ready as int);
            assert(!list.take(j as int).contains(ready as int)) by {
                assert(list[j as int] == ready);
            }
            assert(was_present.contains(ready as int) == present@[ready as int]);
            lemma_contains_append(
                before,
                without(list.take(j as int), before.to_set()),
                ready as int,
            );
        }
        if !present[ready] {
            present.set(ready, true);
            pcs.push(ready);
            proof {
                assert(nums(pcs@) =~= was.push(ready as int));
                assert(flags(present@) =~= was_present.insert(ready as int));
                assert forall|x: int| #[trigger]
                    flags(present@).contains(x) <==> nums(pcs@).contains(x) by {
                    lemma_contains_append(was, seq![ready as int], x);
                    assert(was + seq![ready as int] =~= was.push(ready as int));
                    assert(seq![ready as int].contains(x) <==> x == ready) by {
                        if x == ready {
                            assert(seq![ready as int][0] == x);
                        }
                    }
                }
                assert(before + without(list.take(j as int), before.to_set()).push(ready as int)
                    =~= was.push(ready as int));
            }
        }
        j += 1;
    }
    proof {
        assert(list.take(list.len() as int) =~= list);
    }
}

proof fn lemma_without_push(list: Seq<int>, x: int, gone: Set<int>)
    ensures
        without(list.push(x), gone) == (if gone.contains(x) {
            without(list, gone)
        } else {
            without(list, gone).push(x)
        }),
    decreases list.len(),
{
    let all = list.push(x);
    if list.len() == 0 {
        assert(all.drop_first() =~= Seq::<int>::empty());
        assert(without(all.drop_first(), gone) == Seq::<int>::empty());
        assert(without(all, gone) =~= (if gone.contains(x) {
            without(list, gone)
        } else {
            without(list, gone).push(x)
        }));
    } else {
        assert(all.drop_first() =~= list.drop_first().push(x));
        lemma_without_push(list.drop_first(), x, gone);
        assert(without(all, gone) =~= (if gone.contains(x) {
            without(list, gone)
        } else {
            without(list, gone).push(x)
        }));
    }
}

/// Threads at the counters `pcs`, begun at `starts`.
spec fn joined(pcs: Seq<int>, starts: Seq<int>) -> Seq<(int, int)> {
    Seq::new(pcs.len(), |i: int| (pcs[i], starts[i]))
}

/// Threads at the counters `pcs`, numbered.
spec fn indexed(pcs: Seq<int>) -> Seq<(int, int)> {
    Seq::new(pcs.len(), |i: int| (pcs[i], i))
}

/// The ready counters after `byte`, each with the index of the counter it comes from.
spec fn step_list(prog: Seq<Op>, pcs: Seq<int>, byte: u8) -> Seq<(int, int)> {
    close(prog, 0, 0, step_roots(prog, indexed(pcs), byte)).threads
}

/// The ready counters once the start of the program is closed behind them.
spec fn seeded(prog: Seq<Op>, pcs: Seq<int>) -> Seq<int> {
    pcs + without(walk(prog, 0, 0, seq![0int], Set::empty()).ready, pcs.to_set())
}

/// The list comes of a walk.
spec fn walked(prog: Seq<Op>, pcs: Seq<int>) -> bool {
    exists|roots: Seq<int>| pcs == (#[trigger] walk(prog, 0, 0, roots, Set::empty())).ready
}

/// A state: an ordered list of ready counters without duplicates, and the index of the
/// first of them that accepts.
struct State {
    pcs: Vec<usize>,
    first_match: Option<usize>,
}

impl State {
    spec fn valid(&self, prog: Seq<Op>) -> bool {
        &&& walked(prog, nums(self.pcs@))
        &&& match self.first_match {
            Some(m) => {
                &&& m < self.pcs.len()
                &&& prog[self.pcs[m as int] as int] is Match
                &&& forall|j: int| 0 <= j < m ==> !(prog[#[trigger] self.pcs[j] as int] is Match)
            },
            None => forall|j: int|
                0 <= j < self.pcs.len() ==> !(prog[#[trigger] self.pcs[j] as int] is Match),
        }
    }
}

/// The counters of a walk are ready, and there are no duplicates.
proof fn lemma_walked(prog: Seq<Op>, pcs: Seq<int>)
    requires
        walked(prog, pcs),
    ensures
        pcs.no_duplicates(),
        forall|i: int| 0 <= i < pcs.len() ==> is_ready(prog, #[trigger] pcs[i]),
{
    let roots = choose|roots: Seq<int>|
        pcs == (#[trigger] walk(prog, 0, 0, roots, Set::empty())).ready;
    lemma_walk(prog, 0, 0, roots, Set::empty());
    assert forall|i: int| 0 <= i < pcs.len() implies is_ready(prog, #[trigger] pcs[i]) by {
        assert(pcs.contains(pcs[i]));
    }
}

/// The first thread at an accepting instruction accepts.
proof fn lemma_accepted(prog: Seq<Op>, threads: Seq<(int, int)>, first: int, pos: int)
    requires
        0 <= first <= threads.len(),
        first < threads.len() ==> prog[threads[first].0] is Match,
        forall|j: int| 0 <= j < first ==> !(prog[(#[trigger] threads[j]).0] is Match),
    ensures
        accepted(prog, threads, pos) == (if first < threads.len() {
            Some((threads[first].1, pos))
        } else {
            None
        }),
    decreases threads.len(),
{
    if first > 0 {
        let rest = threads.drop_first();
        assert forall|j: int| 0 <= j < first - 1 implies !(prog[(#[trigger] rest[j]).0] is Match) by {
            assert(rest[j] == threads[j + 1]);
        }
        lemma_accepted(prog, rest, first - 1, pos);
    }
}

/// A lazily built automaton for one program.
pub struct Dfa {
    prog: Program,
    /// The ready counters of the start of the program.
    start_pcs: Vec<usize>,
    start_state: u32,
    states: Vec<State>,
    /// `trans[state * 256 + byte]` is the state that follows.
    trans: Vec<u32>,
    /// `prov[prov_off[state * 256 + byte] + k]` is the index, in the source state, of
    /// the counter that the destination's `k`-th counter comes from.
    prov: Vec<usize>,
    prov_off: Vec<usize>,
    /// `seed_merged[state]` is the state with the start of the program closed behind it,
    /// which adds `seed_appended[state]` counters.
    seed_merged: Vec<u32>,
    seed_appended: Vec<usize>,
    /// The ready counters of every counter.
    closure_cache: Vec<Vec<usize>>,
    /// Scratch membership set over the program.
    present: Vec<bool>,
    /// Set when the cap is hit: what was found is to be discarded.
    overflowed: bool,
}

impl Dfa {
    /// The entries for `byte` in the row of the state `id`.
    spec fn slot_valid(&self, id: int, byte: u8) -> bool {
        let slot = id * 256 + byte;
        let list = step_list(self.prog@, nums(self.states[id].pcs@), byte);
        self.trans[slot] != UNCOMPUTED ==> {
            &&& self.trans[slot] < self.states.len()
            &&& nums(self.states[self.trans[slot] as int].pcs@) == counters(list)
            &&& self.prov_off[slot] + list.len() <= self.prov.len()
            &&& forall|k: int|
                0 <= k < list.len() ==> self.prov[self.prov_off[slot] + k] == (
                #[trigger] list[k]).1
        }
    }

    /// The seeding of the state `id`.
    spec fn seed_valid(&self, id: int) -> bool {
        let pcs = nums(self.states[id].pcs@);
        self.seed_merged[id] != UNCOMPUTED ==> {
            &&& self.seed_merged[id] < self.states.len()
            &&& nums(self.states[self.seed_merged[id] as int].pcs@) == seeded(self.prog@, pcs)
            &&& self.seed_appended[id] == seeded(self.prog@, pcs).len() - pcs.len()
        }
    }

    /// The program and what is known of it.
    spec fn base_valid(&self) -> bool {
        let p = self.prog@;
        &&& well_formed(p)
        &&& no_asserts(p)
        &&& p.len() <= usize::MAX
        &&& self.closure_cache.len() == p.len()
        &&& forall|pc: int|
            0 <= pc < p.len() ==> nums((#[trigger] self.closure_cache[pc])@) == walk(
                p,
                0,
                0,
                seq![pc],
                Set::empty(),
            ).ready
        &&& nums(self.start_pcs@) == walk(p, 0, 0, seq![0int], Set::empty()).ready
        &&& self.present.len() == p.len()
        &&& forall|i: int| 0 <= i < self.present.len() ==> !#[trigger] self.present[i]
    }

    /// The states and the tables over them. No two states have the same counters.
    spec fn tables_valid(&self) -> bool {
        &&& self.states.len() <= STATE_CAP
        &&& forall|i: int, j: int|
            0 <= i < j < self.states.len() ==> (#[trigger] self.states[i]).pcs@ != (
            #[trigger] self.states[j]).pcs@
        &&& forall|id: int|
            0 <= id < self.states.len() ==> (#[trigger] self.states[id]).valid(self.prog@)
        &&& self.trans.len() == self.states.len() * 256
        &&& self.prov_off.len() == self.states.len() * 256
        &&& self.seed_merged.len() == self.states.len()
        &&& self.seed_appended.len() == self.states.len()
        &&& forall|id: int, byte: u8|
            0 <= id < self.states.len() ==> #[trigger] self.slot_valid(id, byte)
        &&& forall|id: int| 0 <= id < self.states.len() ==> #[trigger] self.seed_valid(id)
    }

    pub closed spec fn valid(&self) -> bool {
        &&& self.base_valid()
        &&& self.tables_valid()
        &&& self.start_state < self.states.len()
        &&& self.states[self.start_state as int].pcs@ == self.start_pcs@
    }

    /// The program that the automaton runs.
    pub closed spec fn program(&self) -> Seq<Op> {
        self.prog@
    }

    /// The number of states made so far.
    pub closed spec fn state_count(&self) -> nat {
        self.states@.len()
    }

    /// Whether one more state was needed when the number of states had hit the cap.
    pub closed spec fn gave_up(&self) -> bool {
        self.overflowed
    }

    /// `self` has all that `old` had, and perhaps more states.
    pub closed spec fn extends(&self, old: &Self) -> bool {
        &&& self.prog@ == old.prog@
        &&& self.start_pcs == old.start_pcs
        &&& self.start_state == old.start_state
        &&& self.closure_cache == old.closure_cache
        &&& self.states.len() >= old.states.len()
        &&& forall|id: int| 0 <= id < old.states.len() ==> self.states[id] == #[trigger] old.states[id]
        &&& old.overflowed ==> self.overflowed
        &&& self.overflowed && !old.overflowed ==> self.states.len() == STATE_CAP
    }

    /// The tables are valid whatever the start state and the cap.
    proof fn lemma_same_tables(&self, other: &Self)
        requires
            other.tables_valid(),
            self.prog == other.prog,
            self.states == other.states,
            self.trans == other.trans,
            self.prov == other.prov,
            self.prov_off == other.prov_off,
            self.seed_merged == other.seed_merged,
            self.seed_appended == other.seed_appended,
        ensures
            self.tables_valid(),
    {
        assert forall|i: int, byte: u8| 0 <= i < self.states.len() implies #[trigger] self.slot_valid(
            i,
            byte,
        ) by {
            assert(other.slot_valid(i, byte));
        }
        assert forall|i: int| 0 <= i < self.states.len() implies #[trigger] self.seed_valid(i) by {
            assert(other.seed_valid(i));
        }
    }

    /// The id of the state with the counters `pcs`, made on first sight. Past the cap the
    /// automaton gives up.
    fn intern(&mut self, pcs: Vec<usize>) -> (id: u32)
        requires
            old(self).base_valid(),
            old(self).tables_valid(),
            walked(old(self).prog@, nums(pcs@)),
        ensures
            final(self).base_valid(),
            final(self).tables_valid(),
            final(self).extends(old(self)),
            !final(self).overflowed ==> id < final(self).states.len(),
            !final(self).overflowed ==> final(self).states[id as int].pcs@ == pcs@,
            final(self).prov == old(self).prov,
            final(self).overflowed && !old(self).overflowed ==> final(self).states.len()
                == STATE_CAP,
            final(self).states.len() <= old(self).states.len() + 1,
    {
        let mut id: usize = 0;
        while id < self.states.len()
            invariant
                id <= self.states.len(),
                *self == *old(self),
                self.base_valid(),
                self.tables_valid(),
                forall|i: int| 0 <= i < id ==> (#[trigger] self.states[i]).pcs@ != pcs@,
            decreases self.states.len() - id,
        {
            if same(&self.states[id].pcs, &pcs) {
                return id as u32;
            }
            id += 1;
        }
        if self.states.len() >= STATE_CAP {
            self.overflowed = true;
            proof {
                self.lemma_same_tables(old(self));
            }
            return 0;
        }
        let ghost p = self.prog@;
        proof {
            lemma_walked(p, nums(pcs@));
        }
        let mut first_match: Option<usize> = None;
        let insts: &Vec<Inst> = self.prog.insts();
        let mut j: usize = 0;
        while j < pcs.len() && first_match.is_none()
            invariant
                j <= pcs.len(),
                p == ops(insts@),
                p.len() == insts.len(),
                forall|i: int| 0 <= i < nums(pcs@).len() ==> is_ready(p, #[trigger] nums(pcs@)[i]),
                match first_match {
                    Some(m) => m < pcs.len() && p[pcs[m as int] as int] is Match && forall|i: int|
                        0 <= i < m ==> !(p[#[trigger] pcs[i] as int] is Match),
                    None => forall|i: int| 0 <= i < j ==> !(p[#[trigger] pcs[i] as int] is Match),
                },
            decreases pcs.len() - j,
        {
            proof {
                assert(nums(pcs@)[j as int] == pcs[j as int]);
                assert(p[pcs[j as int] as int] == insts@[pcs[j as int] as int]@);
            }
            if matches!(&insts[pcs[j]], Inst::Match) {
                first_match = Some(j);
            }
            j += 1;
        }
        let id: u32 = self.states.len() as u32;
        let ghost before = *self;
        let ghost list = pcs@;
        self.states.push(State { pcs, first_match });
        let ghost grown = self.states@;
        let mut k: usize = 0;
        while k < 256
            invariant
                k <= 256,
                self.trans.len() == before.trans.len() + k,
                self.prov_off.len() == before.prov_off.len() + k,
                forall|i: int| 0 <= i < before.trans.len() ==> self.trans[i] == before.trans[i],
                forall|i: int|
                    0 <= i < before.prov_off.len() ==> self.prov_off[i] == before.prov_off[i],
                forall|i: int|
                    before.trans.len() <= i < self.trans.len() ==> self.trans[i] == UNCOMPUTED,
                self.prog == before.prog,
                self.start_pcs == before.start_pcs,
                self.start_state == before.start_state,
                self.states@ == grown,
                self.prov == before.prov,
                self.seed_merged == before.seed_merged,
                self.seed_appended == before.seed_appended,
                self.closure_cache == before.closure_cache,
                self.present == before.present,
                self.overflowed == before.overflowed,
            decreases 256 - k,
        {
            self.trans.push(UNCOMPUTED);
            self.prov_off.push(0);
            k += 1;
        }
        self.seed_merged.push(UNCOMPUTED);
        self.seed_appended.push(0);
        proof {
            let n = before.states.len() as int;
            assert(self.states[n].pcs@ == list);
            assert forall|i: int, byte: u8| 0 <= i < self.states.len() implies
                #[trigger] self.slot_valid(i, byte) by {
                if i < n {
                    assert(before.slot_valid(i, byte));
                    assert(0 <= i * 256 + byte < before.trans.len());
                    let t = before.trans[i * 256 + byte];
                    if t != UNCOMPUTED {
                        assert(self.states[t as int] == before.states[t as int]);
                    }
                } else {
                    assert(before.trans.len() <= i * 256 + byte < self.trans.len());
                }
            }
            assert forall|i: int| 0 <= i < self.states.len() implies #[trigger] self.seed_valid(
                i,
            ) by {
                if i < n {
                    assert(before.seed_valid(i));
                    let t = before.seed_merged[i];
                    if t != UNCOMPUTED {
                        assert(self.states[t as int] == before.states[t as int]);
                    }
                }
            }
        }
        id
    }
}

impl Dfa {
    /// An automaton for a program without anchors.
    pub fn build(prog: Program) -> (dfa: Self)
        requires
            no_asserts(prog@),
        ensures
            dfa.valid(),
            dfa.program() == prog@,
            !dfa.gave_up(),
            1 <= dfa.state_count() <= 2,
    {
        let ghost p = prog@;
        let insts: &Vec<Inst> = prog.insts();
        let n: usize = insts.len();
        let mut closure_cache: Vec<Vec<usize>> = Vec::new();
        let mut pc: usize = 0;
        while pc < n
            invariant
                pc <= n == p.len(),
                n == insts.len(),
                p == ops(insts@),
                well_formed(p),
                no_asserts(p),
                closure_cache.len() == pc,
                forall|i: int|
                    0 <= i < pc ==> nums((#[trigger] closure_cache[i])@) == walk(
                        p,
                        0,
                        0,
                        seq![i],
                        Set::empty(),
                    ).ready,
            decreases n - pc,
        {
            let mut out: Vec<usize> = Vec::new();
            let mut seen: Vec<bool> = vec![false; n];
            proof {
                assert(flags(seen@) =~= Set::empty());
                assert(nums(out@) =~= Seq::<int>::empty());
            }
            build_closure(insts, pc, &mut out, &mut seen);
            proof {
                let w = walk(p, 0, 0, seq![pc as int], Set::empty());
                assert(Seq::<int>::empty() + w.ready =~= w.ready);
            }
            closure_cache.push(out);
            pc += 1;
        }
        let start_pcs: Vec<usize> = closure_cache[0].clone();
        let mut dfa = Self {
            prog,
            start_pcs,
            start_state: 0,
            states: Vec::new(),
            trans: Vec::new(),
            prov: Vec::new(),
            prov_off: Vec::new(),
            seed_merged: Vec::new(),
            seed_appended: Vec::new(),
            closure_cache,
            present: vec![false; n],
            overflowed: false,
        };
        let none: Vec<usize> = Vec::new();
        proof {
            assert(dfa.start_pcs@ =~= dfa.closure_cache[0]@);
            let w = walk(p, 0, 0, Seq::<int>::empty(), Set::empty());
            assert(w.ready == Seq::<int>::empty());
            assert(nums(none@) =~= w.ready);
        }
        let _dead: u32 = dfa.intern(none);
        let start: Vec<usize> = dfa.start_pcs.clone();
        proof {
            assert(start@ =~= dfa.start_pcs@);
            assert(walked(p, nums(start@)));
        }
        let start_state: u32 = dfa.intern(start);
        let ghost before = dfa;
        dfa.start_state = start_state;
        proof {
            dfa.lemma_same_tables(&before);
        }
        dfa
    }
}

impl Dfa {
    /// All but the scratch set is the same.
    spec fn same_but_scratch(&self, other: &Self) -> bool {
        &&& self.prog == other.prog
        &&& self.start_pcs == other.start_pcs
        &&& self.start_state == other.start_state
        &&& self.states == other.states
        &&& self.trans == other.trans
        &&& self.prov == other.prov
        &&& self.prov_off == other.prov_off
        &&& self.seed_merged == other.seed_merged
        &&& self.seed_appended == other.seed_appended
        &&& self.closure_cache == other.closure_cache
        &&& self.overflowed == other.overflowed
    }

    /// Clear the scratch set, which holds just the counters of `pcs`.
    fn clear_present(&mut self, pcs: &Vec<usize>)
        requires
            old(self).present.len() == old(self).prog@.len(),
            forall|x: int| #[trigger]
                flags(old(self).present@).contains(x) <==> nums(pcs@).contains(x),
        ensures
            final(self).same_but_scratch(old(self)),
            final(self).present.len() == old(self).present.len(),
            forall|i: int| 0 <= i < final(self).present.len() ==> !#[trigger] final(self).present[i],
    {
        let mut j: usize = 0;
        let ghost was = self.present@;
        while j < pcs.len()
            invariant
                j <= pcs.len(),
                self.same_but_scratch(old(self)),
                self.present.len() == was.len(),
                forall|x: int| #[trigger] flags(was).contains(x) <==> nums(pcs@).contains(x),
                forall|i: int|
                    0 <= i < was.len() && #[trigger] self.present[i] ==> was[i] && forall|k: int|
                        0 <= k < j ==> pcs[k] != i,
            decreases pcs.len() - j,
        {
            proof {
                assert(nums(pcs@)[j as int] == pcs[j as int]);
                assert(nums(pcs@).contains(pcs[j as int] as int));
                assert(flags(was).contains(pcs[j as int] as int));
            }
            self.present.set(pcs[j], false);
            j += 1;
        }
        assert forall|i: int| 0 <= i < self.present.len() implies !#[trigger] self.present[i] by {
            if self.present[i] {
                assert(flags(was).contains(i));
                assert(nums(pcs@).contains(i));
                let k = nums(pcs@).index_of(i);
                assert(pcs[k] == i);
            }
        }
    }

    /// Compute the step from the state `id` over `byte` and keep it.
    fn compute_step(&mut self, id: u32, byte: u8)
        requires
            old(self).base_valid(),
            old(self).tables_valid(),
            id < old(self).states.len(),
        ensures
            final(self).base_valid(),
            final(self).tables_valid(),
            final(self).extends(old(self)),
            final(self).overflowed && !old(self).overflowed ==> final(self).states.len()
                == STATE_CAP,
            final(self).states.len() <= old(self).states.len() + 1,
            !final(self).overflowed ==> final(self).trans[id * 256 + byte] != UNCOMPUTED,
    {
        let slot: usize = id as usize * 256 + byte as usize;
        let ghost p = self.prog@;
        let ghost before = *self;
        let src_pcs: Vec<usize> = self.states[id as usize].pcs.clone();
        let ghost all = indexed(nums(src_pcs@));
        let mut next_pcs: Vec<usize> = Vec::new();
        let mut src: Vec<usize> = Vec::new();
        let mut stopped: bool = false;
        let mut i: usize = 0;
        proof {
            assert(src_pcs@ =~= self.states[id as int].pcs@);
            assert(self.states[id as int].valid(p));
            lemma_walked(p, nums(src_pcs@));
            assert(all.take(0) =~= Seq::<(int, int)>::empty());
            assert(joined(nums(next_pcs@), nums(src@)) =~= Seq::<(int, int)>::empty());
        }
        while i < src_pcs.len() && !stopped
            invariant
                i <= src_pcs.len(),
                all == indexed(nums(src_pcs@)),
                p == self.prog@,
                well_formed(p),
                no_asserts(p),
                p.len() <= usize::MAX,
                self.same_but_scratch(&before),
                before.base_valid(),
                self.present.len() == p.len(),
                forall|j: int|
                    0 <= j < nums(src_pcs@).len() ==> is_ready(p, #[trigger] nums(src_pcs@)[j]),
                next_pcs.len() == src.len(),
                joined(nums(next_pcs@), nums(src@)) == close(
                    p,
                    0,
                    0,
                    step_roots(p, all.take(i as int), byte),
                ).threads,
                forall|x: int| #[trigger]
                    flags(self.present@).contains(x) <==> nums(next_pcs@).contains(x),
                stopped <==> accepted(p, all.take(i as int), 0) is Some,
            decreases src_pcs.len() - i,
        {
            let pc: usize = src_pcs[i];
            let ghost one = seq![(pc as int, i as int)];
            let ghost on = step_roots(p, all.take(i as int), byte);
            let insts: &Vec<Inst> = self.prog.insts();
            proof {
                assert(nums(src_pcs@)[i as int] == pc);
                assert(p[pc as int] == insts@[pc as int]@);
                assert(all.take(i + 1) =~= all.take(i as int) + one);
                lemma_step_more(p, all.take(i as int), byte, one, 0);
                assert(one.drop_first() =~= Seq::<(int, int)>::empty());
                assert(step_roots(p, one.drop_first(), byte) == Seq::<(int, int)>::empty());
                assert(accepted(p, one.drop_first(), 0) is None);
                assert(on + Seq::<(int, int)>::empty() =~= on);
            }
            match &insts[pc] {
                Inst::Byte(class) => {
                    if class.matches(byte) {
                        let ghost was_next = nums(next_pcs@);
                        let ghost was_src = nums(src@);
                        let ghost fresh = walk(p, 0, 0, seq![pc + 1], Set::empty()).ready;
                        proof {
                            let more = on.push((pc + 1, i as int));
                            assert(step_roots(p, one, byte) =~= seq![(pc + 1, i as int)]);
                            assert(on + step_roots(p, one, byte) =~= more);
                            lemma_close_more(p, 0, 0, on, pc + 1, i as int);
                            lemma_walk(p, 0, 0, seq![pc + 1], Set::empty());
                            assert(nums(before.closure_cache[pc + 1]@) == fresh);
                            assert forall|k: int|
                                0 <= k < self.closure_cache[pc + 1].len() implies (
                            #[trigger] self.closure_cache[pc + 1][k]) < self.present.len() by {
                                assert(fresh[k] == self.closure_cache[pc + 1][k]);
                                assert(fresh.contains(fresh[k]));
                            }
                            assert(counters(joined(was_next, was_src)) =~= was_next);
                        }
                        append_fresh(
                            &self.closure_cache[pc + 1],
                            &mut self.present,
                            &mut next_pcs,
                        );
                        let ghost added = without(fresh, was_next.to_set());
                        assert(nums(next_pcs@).len() == was_next.len() + added.len());
                        while src.len() < next_pcs.len()
                            invariant
                                was_src.len() <= src.len() <= next_pcs.len(),
                                forall|k: int|
                                    0 <= k < src.len() ==> src[k] == (if k < was_src.len() {
                                        was_src[k]
                                    } else {
                                        i as int
                                    }),
                            decreases next_pcs.len() - src.len(),
                        {
                            src.push(i);
                        }
                        proof {
                            assert(nums(next_pcs@) == was_next + added);
                            assert(joined(nums(next_pcs@), nums(src@)) =~= joined(
                                was_next,
                                was_src,
                            ) + begun(added, i as int));
                        }
                    }
                },
                Inst::Match => {
                    stopped = true;
                },
                _ => {},
            }
            i += 1;
        }
        let ghost list = step_list(p, nums(src_pcs@), byte);
        let ghost next_list = nums(next_pcs@);
        let ghost src_list = nums(src@);
        proof {
            assert(all =~= all.take(i as int) + all.skip(i as int));
            if stopped {
                lemma_step_cut(p, all.take(i as int), byte, all.skip(i as int), 0);
            } else {
                assert(all =~= all.take(i as int));
            }
            assert(joined(next_list, src_list) == list);
            assert(counters(list) =~= next_list);
            lemma_close_counters(p, 0, 0, step_roots(p, all, byte));
            assert(walked(p, next_list));
        }
        self.clear_present(&next_pcs);
        proof {
            self.lemma_same_tables(&before);
        }
        let next: u32 = self.intern(next_pcs);
        if self.overflowed {
            return;
        }
        let ghost mid = *self;
        let off: usize = self.prov.len();
        let mut k: usize = 0;
        while k < src.len()
            invariant
                k <= src.len(),
                off == mid.prov.len(),
                self.prov@ == mid.prov@ + src@.take(k as int),
                self.prog == mid.prog,
                self.start_pcs == mid.start_pcs,
                self.start_state == mid.start_state,
                self.states == mid.states,
                self.trans == mid.trans,
                self.prov_off == mid.prov_off,
                self.seed_merged == mid.seed_merged,
                self.seed_appended == mid.seed_appended,
                self.closure_cache == mid.closure_cache,
                self.present == mid.present,
                self.overflowed == mid.overflowed,
            decreases src.len() - k,
        {
            self.prov.push(src[k]);
            assert(src@.take(k + 1) =~= src@.take(k as int).push(src[k as int]));
            k += 1;
        }
        self.trans.set(slot, next);
        self.prov_off.set(slot, off);
        proof {
            assert(src@.take(src.len() as int) =~= src@);
            assert(nums(self.states[id as int].pcs@) == nums(src_pcs@));
            assert forall|x: int, b: u8| 0 <= x < self.states.len() implies
                #[trigger] self.slot_valid(x, b) by {
                assert(mid.slot_valid(x, b));
                if x * 256 + b == slot {
                    assert(x == id && b == byte);
                    assert forall|k: int| 0 <= k < list.len() implies self.prov[self.prov_off[slot as int]
                        + k] == (#[trigger] list[k]).1 by {
                        assert(joined(next_list, src_list)[k].1 == src_list[k]);
                        assert(src_list[k] == src[k]);
                    }
                } else {
                    let l = step_list(self.prog@, nums(self.states[x].pcs@), b);
                    assert forall|k: int|
                        0 <= k < l.len() && self.trans[x * 256 + b] != UNCOMPUTED implies self.prov[
                    self.prov_off[x * 256 + b] + k] == (#[trigger] l[k]).1 by {
                        assert(mid.prov[mid.prov_off[x * 256 + b] + k] == l[k].1);
                    }
                }
            }
            assert forall|x: int| 0 <= x < self.states.len() implies #[trigger] self.seed_valid(
                x,
            ) by {
                assert(mid.seed_valid(x));
            }
        }
    }
}

impl Dfa {
    /// Take the step from the state `curr_id`, whose threads began at `curr_starts`, over
    /// `byte`. The starts of the threads that go on are left in `next_starts`.
    fn transition_into(
        &mut self,
        curr_id: u32,
        curr_starts: &Vec<usize>,
        byte: u8,
        next_starts: &mut Vec<usize>,
    ) -> (next_id: u32)
        requires
            old(self).valid(),
            curr_id < old(self).states.len(),
            curr_starts.len() == old(self).states[curr_id as int].pcs.len(),
        ensures
            final(self).valid(),
            final(self).extends(old(self)),
            final(self).overflowed && !old(self).overflowed ==> final(self).states.len()
                == STATE_CAP,
            final(self).states.len() <= old(self).states.len() + 1,
            !final(self).overflowed ==> {
                let p = old(self).prog@;
                let curr = joined(
                    nums(old(self).states[curr_id as int].pcs@),
                    nums(curr_starts@),
                );
                &&& next_id < final(self).states.len()
                &&& final(next_starts).len() == final(self).states[next_id as int].pcs.len()
                &&& joined(
                    nums(final(self).states[next_id as int].pcs@),
                    nums(final(next_starts)@),
                ) == close(p, 0, 0, step_roots(p, curr, byte)).threads
            },
    {
        let slot: usize = curr_id as usize * 256 + byte as usize;
        if self.trans[slot] == UNCOMPUTED {
            self.compute_step(curr_id, byte);
        }
        if self.overflowed {
            return 0;
        }
        let next_id: u32 = self.trans[slot];
        let off: usize = self.prov_off[slot];
        let ghost p = self.prog@;
        let ghost pcs = nums(self.states[curr_id as int].pcs@);
        let ghost list = step_list(p, pcs, byte);
        proof {
            assert(self.slot_valid(curr_id as int, byte));
            assert(counters(list).len() == list.len());
            assert(nums(self.states[next_id as int].pcs@).len() == self.states[next_id as int].pcs.len());
            lemma_step_sources(p, pcs, byte);
        }
        let len: usize = self.states[next_id as usize].pcs.len();
        next_starts.clear();
        let mut k: usize = 0;
        while k < len
            invariant
                k <= len == list.len(),
                next_starts.len() == k,
                off + len <= self.prov.len(),
                curr_starts.len() == pcs.len(),
                forall|j: int| 0 <= j < list.len() ==> 0 <= (#[trigger] list[j]).1 < pcs.len(),
                forall|j: int| 0 <= j < list.len() ==> self.prov[off + j] == (#[trigger] list[j]).1,
                forall|j: int|
                    0 <= j < k ==> #[trigger] next_starts[j] == curr_starts[list[j].1],
            decreases len - k,
        {
            assert(self.prov[off + k] == list[k as int].1);
            let s: usize = self.prov[off + k];
            next_starts.push(curr_starts[s]);
            k += 1;
        }
        proof {
            let f = |i: int| nums(curr_starts@)[i];
            let curr = joined(pcs, nums(curr_starts@));
            assert(curr =~= relabel(indexed(pcs), f));
            lemma_step_relabel(p, indexed(pcs), byte, f);
            lemma_close_relabel(p, 0, 0, step_roots(p, indexed(pcs), byte), f);
            let next = joined(nums(self.states[next_id as int].pcs@), nums(next_starts@));
            assert forall|j: int| 0 <= j < list.len() implies next[j] == relabel(list, f)[j] by {
                assert(counters(list)[j] == list[j].0);
                assert(next_starts[j] == curr_starts[list[j].1]);
            }
            assert(next =~= relabel(list, f));
        }
        next_id
    }

    /// Close the start of the program, begun at `pos`, behind the threads of the state
    /// `next_id`. The starts of all of them are left in `out_starts`.
    fn merge_seed_into(
        &mut self,
        next_id: u32,
        next_starts: &Vec<usize>,
        pos: usize,
        out_starts: &mut Vec<usize>,
    ) -> (merged_id: u32)
        requires
            old(self).valid(),
            next_id < old(self).states.len(),
            next_starts.len() == old(self).states[next_id as int].pcs.len(),
        ensures
            final(self).valid(),
            final(self).extends(old(self)),
            final(self).overflowed && !old(self).overflowed ==> final(self).states.len()
                == STATE_CAP,
            final(self).states.len() <= old(self).states.len() + 1,
            !final(self).overflowed ==> {
                let p = old(self).prog@;
                let pcs = nums(old(self).states[next_id as int].pcs@);
                let start = walk(p, 0, 0, seq![0int], Set::empty()).ready;
                &&& merged_id < final(self).states.len()
                &&& final(out_starts).len() == final(self).states[merged_id as int].pcs.len()
                &&& joined(
                    nums(final(self).states[merged_id as int].pcs@),
                    nums(final(out_starts)@),
                ) == joined(pcs, nums(next_starts@)) + begun(
                    without(start, pcs.to_set()),
                    pos as int,
                )
            },
    {
        let idx: usize = next_id as usize;
        let ghost p = self.prog@;
        let ghost pcs = nums(self.states[idx as int].pcs@);
        let ghost start = walk(p, 0, 0, seq![0int], Set::empty()).ready;
        let ghost before = *self;
        if self.seed_merged[idx] == UNCOMPUTED {
            let mut combined: Vec<usize> = self.states[idx].pcs.clone();
            let old_len: usize = combined.len();
            proof {
                assert(combined@ =~= self.states[idx as int].pcs@);
                assert(self.states[idx as int].valid(p));
                lemma_walked(p, pcs);
            }
            let mut j: usize = 0;
            while j < combined.len()
                invariant
                    j <= combined.len(),
                    nums(combined@) == pcs,
                    p == self.prog@,
                    self.same_but_scratch(&before),
                    self.present.len() == p.len(),
                    forall|i: int| 0 <= i < pcs.len() ==> is_ready(p, #[trigger] pcs[i]),
                    forall|i: int|
                        0 <= i < p.len() ==> (#[trigger] self.present[i] <==> exists|k: int|
                            0 <= k < j && #[trigger] combined[k] == i),
                decreases combined.len() - j,
            {
                assert(pcs[j as int] == combined[j as int]);
                self.present.set(combined[j], true);
                j += 1;
            }
            proof {
                assert forall|x: int| #[trigger]
                    flags(self.present@).contains(x) <==> pcs.contains(x) by {
                    if pcs.contains(x) {
                        let k = pcs.index_of(x);
                        assert(combined[k] == x);
                        assert(is_ready(p, pcs[k]));
                        assert(self.present[x]);
                    }
                    if flags(self.present@).contains(x) {
                        let k = choose|k: int| 0 <= k < j && #[trigger] combined[k] == x;
                        assert(pcs[k] == x);
                    }
                }
                lemma_walk(p, 0, 0, seq![0int], Set::empty());
                assert forall|k: int| 0 <= k < self.start_pcs.len() implies (
                #[trigger] self.start_pcs[k]) < self.present.len() by {
                    assert(start[k] == self.start_pcs[k]);
                    assert(start.contains(start[k]));
                }
            }
            append_fresh(&self.start_pcs, &mut self.present, &mut combined);
            proof {
                assert(nums(combined@) == seeded(p, pcs));
                assert(nums(combined@).len() == combined.len());
                assert(pcs.len() == old_len);
            }
            let appended: usize = combined.len() - old_len;
            self.clear_present(&combined);
            proof {
                self.lemma_same_tables(&before);
                lemma_seeded_walked(p, pcs);
            }
            let id: u32 = self.intern(combined);
            if self.overflowed {
                return 0;
            }
            let ghost mid = *self;
            self.seed_merged.set(idx, id);
            self.seed_appended.set(idx, appended);
            proof {
                assert forall|x: int, b: u8| 0 <= x < self.states.len() implies
                    #[trigger] self.slot_valid(x, b) by {
                    assert(mid.slot_valid(x, b));
                }
                assert forall|x: int| 0 <= x < self.states.len() implies
                    #[trigger] self.seed_valid(x) by {
                    assert(mid.seed_valid(x));
                }
            }
        }
        if self.overflowed {
            return 0;
        }
        let merged_id: u32 = self.seed_merged[idx];
        let appended: usize = self.seed_appended[idx];
        proof {
            assert(self.seed_valid(idx as int));
        }
        out_starts.clear();
        let mut k: usize = 0;
        while k < next_starts.len()
            invariant
                k <= next_starts.len(),
                out_starts@ == next_starts@.take(k as int),
            decreases next_starts.len() - k,
        {
            out_starts.push(next_starts[k]);
            assert(next_starts@.take(k + 1) =~= next_starts@.take(k as int).push(
                next_starts[k as int],
            ));
            k += 1;
        }
        let mut a: usize = 0;
        while a < appended
            invariant
                a <= appended,
                out_starts@ == next_starts@ + Seq::new(a as nat, |i: int| pos),
            decreases appended - a,
        {
            out_starts.push(pos);
            assert(Seq::new((a + 1) as nat, |i: int| pos) =~= Seq::new(a as nat, |i: int| pos).push(
                pos,
            ));
            a += 1;
        }
        proof {
            let added = without(start, pcs.to_set());
            assert(nums(self.states[merged_id as int].pcs@) == pcs + added);
            assert(nums(self.states[merged_id as int].pcs@).len()
                == self.states[merged_id as int].pcs.len());
            assert(joined(
                nums(self.states[merged_id as int].pcs@),
                nums(out_starts@),
            ) =~= joined(pcs, nums(next_starts@)) + begun(added, pos as int));
        }
        merged_id
    }
}

impl Dfa {
    /// Find the leftmost-first greedy match at or after `scan`: the one that the virtual
    /// machine finds with the same program, whatever has been looked for before. The automaton
    /// gives up only at the cap, and makes no more than two states for each byte it reads.
    pub fn cached_find(&mut self, input: &[u8], scan: usize) -> (hit: Option<(usize, usize)>)
        requires
            old(self).valid(),
        ensures
            final(self).valid(),
            final(self).extends(old(self)),
            final(self).program() == old(self).program(),
            old(self).gave_up() ==> final(self).gave_up(),
            final(self).gave_up() && !old(self).gave_up() ==> final(self).state_count()
                == STATE_CAP,
            old(self).state_count() <= final(self).state_count() <= old(self).state_count() + 2
                * input.len(),
            !final(self).gave_up() ==> found(hit) == vm_find(
                old(self).program(),
                input@,
                scan as int,
                true,
            ),
    {
        let len: usize = input.len();
        if scan > len {
            return None;
        }
        let ghost p = self.prog@;
        let ghost answer = vm_find(p, input@, scan as int, true);
        let ghost l = len as int;
        let mut curr_id: u32 = self.start_state;
        let mut curr_starts: Vec<usize> = vec![scan; self.start_pcs.len()];
        let mut next_starts: Vec<usize> = Vec::new();
        let mut pos: usize = scan;
        let mut best: Option<(usize, usize)> = None;
        let ghost mut roots: Seq<(int, int)> = seq![(0int, scan as int)];
        proof {
            lemma_run_begins(p, input@, scan as int, true);
            lemma_close_anywhere(p, l, pos as int, roots);
            let w = walk(p, 0, 0, seq![0int], Set::empty());
            assert(roots.drop_last() =~= Seq::<(int, int)>::empty());
            assert(close(p, 0, 0, roots.drop_last()).seen == Set::<int>::empty());
            assert(joined(nums(self.start_pcs@), nums(curr_starts@)) =~= begun(
                w.ready,
                scan as int,
            ));
            assert(close(p, 0, 0, roots).threads =~= begun(w.ready, scan as int));
        }
        loop
            invariant_except_break
                curr_id < self.states.len(),
                curr_starts.len() == self.states[curr_id as int].pcs.len(),
                joined(nums(self.states[curr_id as int].pcs@), nums(curr_starts@)) == close(
                    p,
                    l,
                    pos as int,
                    roots,
                ).threads,
                answer == or_else(
                    best_of(p, input@, pos as int, close(p, l, pos as int, roots).threads),
                    fallback(p, input@, pos as int, true, found(best)),
                ),
                self.states.len() <= old(self).states.len() + 2 * (pos - scan),
            invariant
                self.valid(),
                self.extends(old(self)),
                p == self.prog@,
                l == len == input.len(),
                scan <= pos <= len,
            ensures
                found(best) == answer,
                self.states.len() <= old(self).states.len() + 2 * len,
            decreases len - pos,
        {
            let ghost was_best = best;
            let ghost pcs = nums(self.states[curr_id as int].pcs@);
            let ghost threads = joined(pcs, nums(curr_starts@));
            let ghost before = *self;
            if let Some(idx) = self.states[curr_id as usize].first_match {
                assert(self.states[curr_id as int].valid(p));
                best = Some((curr_starts[idx], pos));
            }
            proof {
                let state = self.states[curr_id as int];
                assert(state.valid(p));
                let first = match state.first_match {
                    Some(m) => m as int,
                    None => threads.len() as int,
                };
                assert forall|j: int| 0 <= j < first implies !(p[(
                #[trigger] threads[j]).0] is Match) by {
                    assert(threads[j].0 == state.pcs[j]);
                }
                lemma_accepted(p, threads, first, pos as int);
                assert(found(best) == or_else(accepted(p, threads, pos as int), found(was_best)));
                if pos == len {
                    lemma_run_ends(p, input@, true, threads, found(was_best));
                } else {
                    lemma_run_goes_on(p, input@, pos as int, true, threads, found(was_best));
                }
            }
            if pos == len {
                break;
            }
            let next_id: u32 = self.transition_into(
                curr_id,
                &curr_starts,
                input[pos],
                &mut next_starts,
            );
            if self.overflowed {
                return None;
            }
            let ghost on = step_roots(p, threads, input@[pos as int]);
            let ghost next_pcs = nums(self.states[next_id as int].pcs@);
            proof {
                lemma_close_anywhere(p, l, pos + 1, on);
                assert(next_pcs.len() == self.states[next_id as int].pcs.len());
            }
            if best.is_some() && self.states[next_id as usize].pcs.len() == 0 {
                assert(close(p, l, pos + 1, on).threads =~= Seq::<(int, int)>::empty());
                break;
            }
            pos += 1;
            if best.is_none() {
                curr_id = self.merge_seed_into(next_id, &next_starts, pos, &mut curr_starts);
                if self.overflowed {
                    return None;
                }
                proof {
                    let more = on.push((0, pos as int));
                    lemma_close_more(p, 0, 0, on, 0, pos as int);
                    lemma_close_anywhere(p, l, pos as int, more);
                    assert(counters(joined(next_pcs, nums(next_starts@))) =~= next_pcs);
                    roots = more;
                }
            } else {
                curr_id = next_id;
                std::mem::swap(&mut curr_starts, &mut next_starts);
                proof {
                    roots = on;
                }
            }
        }
        best
    }

    /// Append all non-overlapping matches in `input`, unless the automaton gives up. It does
    /// so only at the cap, and a search makes no more than two states for each byte it reads.
    pub fn find_all(&mut self, input: &[u8], out: &mut Vec<Span>)
        requires
            old(self).valid(),
        ensures
            final(self).valid(),
            final(self).program() == old(self).program(),
            old(self).gave_up() ==> final(self).gave_up(),
            final(self).gave_up() ==> old(self).gave_up() || final(self).state_count()
                >= STATE_CAP,
            old(self).state_count() <= final(self).state_count() <= old(self).state_count() + 2
                * input.len() * (input.len() + 1),
            final(out).len() >= old(out).len(),
            final(out)@.take(old(out).len() as int) == old(out)@,
            !final(self).gave_up() ==> ranges(final(out)@) == ranges(old(out)@) + scan_all(
                |scan: int|
                    leftmost(
                        |start: int| preferred_end(old(self).program(), input@, start),
                        input@.len() as int,
                        scan,
                    ),
                input@.len() as int,
            ),
    {
        let len: usize = input.len();
        let mut scan: usize = 0;
        let mut last_end: Option<usize> = None;
        let ghost p = self.prog@;
        let ghost l = len as int;
        let ghost first = out@;
        let ghost f = |scan: int|
            leftmost(|start: int| preferred_end(p, input@, start), input@.len() as int, scan);
        let ghost whole = ranges(first) + scan_all(f, l);
        assert(out@.take(first.len() as int) =~= first);
        loop
            invariant
                self.valid(),
                self.extends(old(self)),
                p == self.prog@,
                l == len == input.len(),
                scan <= len,
                self.states.len() <= old(self).states.len() + 2 * len * scan,
                first == old(out)@,
                out.len() >= first.len(),
                out@.take(first.len() as int) == first,
                f == (|scan: int|
                    leftmost(
                        |start: int| preferred_end(p, input@, start),
                        input@.len() as int,
                        scan,
                    )),
                whole == ranges(first) + scan_all(f, l),
                !self.overflowed ==> whole == ranges(out@) + scan_from(
                    f,
                    l,
                    scan as int,
                    end_pos(last_end),
                ),
            decreases len - scan,
        {
            let hit = self.cached_find(input, scan);
            proof {
                assert(2 * len * scan + 2 * len == 2 * len * (scan + 1)) by (nonlinear_arith);
                assert(2 * len * (scan + 1) <= 2 * len * (len + 1)) by (nonlinear_arith)
                    requires
                        scan <= len,
                ;
                lemma_vm_find_valid(p, input@, scan as int);
                assert(ranges(out@) + Seq::<(int, int)>::empty() =~= ranges(out@));
                if !self.overflowed {
                    assert(found(hit) == f(scan as int));
                }
            }
            if self.overflowed {
                return ;
            }
            match hit {
                None => {
                    return ;
                },
                Some((start, end)) => {
                    let ghost was = out@;
                    let ghost was_last = last_end;
                    let next = record(start, end, len, &mut last_end, out);
                    proof {
                        lemma_scan_step(
                            f,
                            l,
                            scan as int,
                            start,
                            end,
                            was_last,
                            last_end,
                            was,
                            out@,
                        );
                        assert(out@.take(first.len() as int) =~= was.take(first.len() as int));
                        assert(ranges(out@) + Seq::<(int, int)>::empty() =~= ranges(out@));
                    }
                    match next {
                        Some(n) => {
                            assert(2 * len * (scan + 1) <= 2 * len * n) by (nonlinear_arith)
                                requires
                                    scan + 1 <= n,
                            ;
                            scan = n;
                        },
                        None => {
                            return ;
                        },
                    }
                },
            }
        }
    }

    /// Whether the number of states has hit the cap. The matches found since are not all
    /// there.
    pub fn overflowed(&self) -> (yes: bool)
        ensures
            yes == self.gave_up(),
    {
        self.overflowed
    }
}

/// Compiled automata, one for each pattern source, reused from call to call.
pub struct DfaCache {
    sources: Vec<String>,
    automata: Vec<Dfa>,
}

impl DfaCache {
    /// Every automaton runs the program of the pattern that its source text says, and no
    /// source text has two.
    pub closed spec fn valid(&self) -> bool {
        &&& self.sources.len() == self.automata.len()
        &&& forall|i: int, j: int|
            0 <= i < j < self.sources.len() ==> (#[trigger] self.sources[i])@ != (
            #[trigger] self.sources[j])@
        &&& forall|i: int| 0 <= i < self.automata.len() ==> (#[trigger] self.automata[i]).valid()
        &&& forall|i: int|
            0 <= i < self.automata.len() ==> runs(
                self.sources[i]@,
                #[trigger] self.automata[i].program(),
            )
    }

    /// A cache without automata.
    pub fn new() -> (cache: Self)
        ensures
            cache.valid(),
    {
        Self { sources: Vec::new(), automata: Vec::new() }
    }

    /// The index of the automaton for `re`, built on first sight.
    fn index_for(&mut self, re: &Regex) -> (idx: usize)
        requires
            old(self).valid(),
            re.parsed(),
            !has_anchors(re.ast@),
        ensures
            final(self).valid(),
            idx < final(self).automata.len(),
            final(self).automata[idx as int].program() == program_of(re.ast@),
    {
        let mut i: usize = 0;
        while i < self.sources.len()
            invariant
                i <= self.sources.len(),
                self.valid(),
                re.parsed(),
                forall|j: int| 0 <= j < i ==> (#[trigger] self.sources[j])@ != re.source@,
            decreases self.sources.len() - i,
        {
            if self.sources[i] == re.source {
                assert(runs(self.sources[i as int]@, self.automata[i as int].program()));
                return i;
            }
            i += 1;
        }
        let ghost before = *self;
        let prog = Program::new(&re.ast);
        proof {
            lemma_code_without_anchors(re.ast@, 0);
            lemma_compile(re.ast@, 0);
        }
        let dfa = Dfa::build(prog);
        self.sources.push(re.source.clone());
        self.automata.push(dfa);
        proof {
            assert forall|j: int| 0 <= j < self.automata.len() implies runs(
                self.sources[j]@,
                #[trigger] self.automata[j].program(),
            ) by {
                if j < i {
                    assert(self.automata[j] == before.automata[j]);
                    assert(runs(before.sources[j]@, before.automata[j].program()));
                }
            }
            assert forall|j: int| 0 <= j < self.automata.len() implies (
            #[trigger] self.automata[j]).valid() by {
                if j < i {
                    assert(self.automata[j] == before.automata[j]);
                }
            }
        }
        i
    }

    /// Find all non-overlapping leftmost-first matches of `re` in `input`.
    pub fn find_all(&mut self, re: &Regex, input: &[u8], out: &mut Vec<Span>)
        requires
            old(self).valid(),
            re.parsed(),
        ensures
            final(self).valid(),
            ranges(final(out)@) == ranges(old(out)@) + vm_matches(re.ast@, input@),
    {
        if let Some(prefix) = prefilter::leading_literal_prefix(&re.ast) {
            if prefix.len() >= 2 {
                prefilter::find_all(re, input, out);
                return ;
            }
        }
        if has_anchors_ast(&re.ast) {
            thompson::find_all(re, input, out);
            return ;
        }
        let idx: usize = self.index_for(re);
        let ghost before = *self;
        let kept: usize = out.len();
        let ghost first = out@;
        let dfa = &mut self.automata[idx];
        dfa.find_all(input, out);
        let overflowed = dfa.overflowed();
        proof {
            assert forall|j: int| 0 <= j < self.automata.len() implies runs(
                self.sources[j]@,
                #[trigger] self.automata[j].program(),
            ) by {
                assert(runs(before.sources[j]@, before.automata[j].program()));
            }
        }
        if overflowed {
            out.truncate(kept);
            assert(out@ =~= first);
            thompson::find_all(re, input, out);
        }
    }
}

/// Whether `prog` is the program of the pattern with the source text `source`.
pub open spec fn runs(source: Seq<char>, prog: Seq<Op>) -> bool {
    match pattern_in(encode_utf8(source)) {
        Ok(pattern) => prog == program_of(pattern),
        Err(_) => false,
    }
}

/// Find all non-overlapping leftmost-first matches of `re` in `input`, with an automaton
/// of its own.
pub fn find_all(re: &Regex, input: &[u8], out: &mut Vec<Span>)
    ensures
        ranges(final(out)@) == ranges(old(out)@) + vm_matches(re.ast@, input@),
{
    if let Some(prefix) = prefilter::leading_literal_prefix(&re.ast) {
        if prefix.len() >= 2 {
            prefilter::find_all(re, input, out);
            return ;
        }
    }
    if has_anchors_ast(&re.ast) {
        thompson::find_all(re, input, out);
        return ;
    }
    let prog = Program::new(&re.ast);
    proof {
        lemma_code_without_anchors(re.ast@, 0);
        lemma_compile(re.ast@, 0);
    }
    let mut dfa = Dfa::build(prog);
    let before: usize = out.len();
    dfa.find_all(input, out);
    if dfa.overflowed() {
        out.truncate(before);
        thompson::find_all(re, input, out);
    }
}

/// The source of each thread after a step is a thread before it.
proof fn lemma_step_sources(prog: Seq<Op>, pcs: Seq<int>, byte: u8)
    ensures
        forall|j: int|
            0 <= j < step_list(prog, pcs, byte).len() ==> 0 <= (#[trigger] step_list(
                prog,
                pcs,
                byte,
            )[j]).1 < pcs.len(),
{
    lemma_roots_starts(prog, indexed(pcs), byte, pcs.len() as int);
    lemma_close_starts(prog, step_roots(prog, indexed(pcs), byte), pcs.len() as int);
}

proof fn lemma_roots_starts(prog: Seq<Op>, threads: Seq<(int, int)>, byte: u8, n: int)
    requires
        forall|i: int| 0 <= i < threads.len() ==> 0 <= (#[trigger] threads[i]).1 < n,
    ensures
        forall|i: int|
            0 <= i < step_roots(prog, threads, byte).len() ==> 0 <= (#[trigger] step_roots(
                prog,
                threads,
                byte,
            )[i]).1 < n,
    decreases threads.len(),
{
    if threads.len() > 0 {
        assert forall|i: int| 0 <= i < threads.drop_first().len() implies 0 <= (
        #[trigger] threads.drop_first()[i]).1 < n by {
            assert(threads.drop_first()[i] == threads[i + 1]);
        }
        lemma_roots_starts(prog, threads.drop_first(), byte, n);
        let rest = step_roots(prog, threads.drop_first(), byte);
        assert(0 <= threads[0].1 < n);
        assert forall|i: int| 0 <= i < step_roots(prog, threads, byte).len() implies 0 <= (
        #[trigger] step_roots(prog, threads, byte)[i]).1 < n by {
            if step_roots(prog, threads, byte).len() > rest.len() && i > 0 {
                assert(step_roots(prog, threads, byte)[i] == rest[i - 1]);
            }
        }
    }
}

proof fn lemma_close_starts(prog: Seq<Op>, roots: Seq<(int, int)>, n: int)
    requires
        forall|i: int| 0 <= i < roots.len() ==> 0 <= (#[trigger] roots[i]).1 < n,
    ensures
        forall|i: int|
            0 <= i < close(prog, 0, 0, roots).threads.len() ==> 0 <= (#[trigger] close(
                prog,
                0,
                0,
                roots,
            ).threads[i]).1 < n,
    decreases roots.len(),
{
    if roots.len() > 0 {
        assert forall|i: int| 0 <= i < roots.drop_last().len() implies 0 <= (
        #[trigger] roots.drop_last()[i]).1 < n by {
            assert(roots.drop_last()[i] == roots[i]);
        }
        lemma_close_starts(prog, roots.drop_last(), n);
        let last = roots[roots.len() - 1];
        assert(0 <= last.1 < n);
        let before = close(prog, 0, 0, roots.drop_last()).threads;
        let all = close(prog, 0, 0, roots).threads;
        assert forall|i: int| 0 <= i < all.len() implies 0 <= (#[trigger] all[i]).1 < n by {
            if i < before.len() {
                assert(all[i] == before[i]);
            }
        }
    }
}

/// A seeded list comes of a walk too.
proof fn lemma_seeded_walked(prog: Seq<Op>, pcs: Seq<int>)
    requires
        walked(prog, pcs),
    ensures
        walked(prog, seeded(prog, pcs)),
{
    let roots = choose|roots: Seq<int>|
        pcs == (#[trigger] walk(prog, 0, 0, roots, Set::empty())).ready;
    let threads = begun(roots, 0);
    assert(counters(threads) =~= roots);
    lemma_close_counters(prog, 0, 0, threads);
    lemma_close_more(prog, 0, 0, threads, 0, 0);
    let more = threads.push((0, 0));
    lemma_close_counters(prog, 0, 0, more);
    let c = close(prog, 0, 0, threads);
    let fresh = walk(prog, 0, 0, seq![0int], Set::empty()).ready;
    let added = without(fresh, pcs.to_set());
    assert(counters(c.threads + begun(added, 0)) =~= pcs + added);
    assert(walk(prog, 0, 0, counters(more), Set::empty()).ready == seeded(prog, pcs));
}

/// Whether two lists are equal.
fn same(a: &Vec<usize>, b: &Vec<usize>) -> (yes: bool)
    ensures
        yes == (a@ == b@),
{
    if a.len() != b.len() {
        return false;
    }
    let mut i: usize = 0;
    while i < a.len()
        invariant
            i <= a.len() == b.len(),
            forall|j: int| 0 <= j < i ==> a[j] == b[j],
        decreases a.len() - i,
    {
        if a[i] != b[i] {
            return false;
        }
        i += 1;
    }
    assert(a@ =~= b@);
    true
}

}
