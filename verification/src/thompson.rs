//! Linear-time matching: patterns are compiled to programs, and a virtual machine runs
//! a program with a list of threads.
//!
//! The threads are ordered by priority. A fresh start is seeded at each position and
//! appended to the end of the list, so that threads from an earlier start keep a higher
//! priority. A match drops the threads behind it; those before it run on until they
//! die, and the last match that they come to is the one that is kept.
use crate::ast::{alt_of, cat_of, may_be_empty, pattern_of, Node, Pattern, Regex};
use crate::automaton::{
    arms, is_ready, lemma_room, lemma_walk, lemma_walk_append, preferred_end, room, walk, Op,
};
use crate::byte_class::ByteClass;
use crate::lockstep::{
    accepted, begun, best_of, close, fallback, lemma_close_ready, lemma_run_begins, lemma_run_ends,
    lemma_run_goes_on, lemma_step_cut, lemma_step_more, lemma_vm_find_valid, or_else, step_roots,
    vm_find,
};
use crate::scan::{all_matches, found, leftmost, ranges, scan_matches, Span};
use vstd::prelude::*;
use vstd::set_lib::{lemma_int_range, lemma_len_subset, set_int_range};

verus! {

/// How many instructions `pattern` compiles to.
pub open spec fn size(pattern: Pattern) -> nat
    decreases pattern,
{
    match pattern {
        Pattern::Empty => 0,
        Pattern::Fail | Pattern::Class(_) | Pattern::Start | Pattern::End => 1,
        Pattern::Cat(a, b) => size(*a) + size(*b),
        Pattern::Alt(a, b) => size(*a) + size(*b) + 2,
        Pattern::Last(p) => size(*p),
        Pattern::Star(p) => size(*p) + 2,
        Pattern::Plus(p) => size(*p) + 1,
        Pattern::Quest(p) => size(*p) + 1,
    }
}

/// The instructions for `pattern`, the first of which has the counter `base`. A match
/// of the pattern falls through to the instruction that follows them.
///
/// A repetition `p*` jumps back to its fork, unless its body may be empty. It is compiled
/// like `(p+)?` then: where the body prefers to be empty, as in `(|a)*`, the loop ends behind
/// it. A jump back would not do, for a path that comes back to a fork without a byte is given
/// up.
pub open spec fn compile(pattern: Pattern, base: int) -> Seq<Op>
    decreases pattern,
{
    match pattern {
        Pattern::Empty => Seq::empty(),
        Pattern::Fail => seq![Op::Byte(Set::empty())],
        Pattern::Class(set) => seq![Op::Byte(set)],
        Pattern::Start => seq![Op::StartAssert],
        Pattern::End => seq![Op::EndAssert],
        Pattern::Cat(a, b) => compile(*a, base) + compile(*b, base + size(*a)),
        Pattern::Alt(a, b) => seq![Op::Split(base + 1, base + size(*a) + 2)] + compile(
            *a,
            base + 1,
        ) + seq![Op::Jmp(base + size(*a) + size(*b) + 2)] + compile(*b, base + size(*a) + 2),
        Pattern::Last(p) => compile(*p, base),
        Pattern::Star(p) => if may_be_empty(*p) {
            seq![Op::Split(base + 1, base + size(*p) + 2)] + compile(*p, base + 1) + seq![
                Op::Split(base + 1, base + size(*p) + 2),
            ]
        } else {
            seq![Op::Split(base + 1, base + size(*p) + 2)] + compile(*p, base + 1) + seq![
                Op::Jmp(base),
            ]
        },
        Pattern::Plus(p) => compile(*p, base) + seq![Op::Split(base, base + size(*p) + 1)],
        Pattern::Quest(p) => seq![Op::Split(base + 1, base + size(*p) + 1)] + compile(*p, base + 1),
    }
}

/// The whole program for `pattern`.
pub open spec fn program_of(pattern: Pattern) -> Seq<Op> {
    compile(pattern, 0) + seq![Op::Match]
}

/// The matches that the program of `pattern` finds in `input`.
pub open spec fn vm_matches(pattern: Pattern, input: Seq<u8>) -> Seq<(int, int)> {
    all_matches(
        |start: int| preferred_end(program_of(pattern), input, start),
        input.len() as int,
    )
}

/// Whether the instruction at `pc` goes on only at counters from `lo` to `hi`.
pub open spec fn op_within(op: Op, pc: int, lo: int, hi: int) -> bool {
    match op {
        Op::Byte(_) | Op::StartAssert | Op::EndAssert => lo <= pc + 1 <= hi,
        Op::Split(x, y) => lo <= x <= hi && lo <= y <= hi,
        Op::Jmp(t) => lo <= t <= hi,
        Op::Match => true,
    }
}

/// The code of a pattern goes on only within it or right behind it.
pub proof fn lemma_compile(pattern: Pattern, base: int)
    ensures
        compile(pattern, base).len() == size(pattern),
        forall|i: int|
            0 <= i < size(pattern) ==> op_within(
                #[trigger] compile(pattern, base)[i],
                base + i,
                base,
                base + size(pattern),
            ),
        forall|i: int| 0 <= i < size(pattern) ==> !(#[trigger] compile(pattern, base)[i] is Match),
    decreases pattern,
{
    match pattern {
        Pattern::Cat(a, b) => {
            lemma_compile(*a, base);
            lemma_compile(*b, base + size(*a));
        },
        Pattern::Alt(a, b) => {
            lemma_compile(*a, base + 1);
            lemma_compile(*b, base + size(*a) + 2);
        },
        Pattern::Last(p) => {
            lemma_compile(*p, base);
        },
        Pattern::Star(p) => {
            lemma_compile(*p, base + 1);
        },
        Pattern::Plus(p) => {
            lemma_compile(*p, base);
        },
        Pattern::Quest(p) => {
            lemma_compile(*p, base + 1);
        },
        _ => {},
    }
}

/// `prog` holds the code of `pattern` at `b`, and goes on behind it.
pub open spec fn holds(prog: Seq<Op>, pattern: Pattern, b: int) -> bool {
    &&& 0 <= b
    &&& b + size(pattern) < prog.len()
    &&& forall|i: int| 0 <= i < size(pattern) ==> prog[b + i] == #[trigger] compile(pattern, b)[i]
}

/// The code of a pattern holds the code of its parts.
pub proof fn lemma_holds_parts(prog: Seq<Op>, pattern: Pattern, b: int)
    requires
        holds(prog, pattern, b),
    ensures
        match pattern {
            Pattern::Fail => prog[b] == Op::Byte(Set::empty()),
            Pattern::Class(set) => prog[b] == Op::Byte(set),
            Pattern::Start => prog[b] == Op::StartAssert,
            Pattern::End => prog[b] == Op::EndAssert,
            Pattern::Cat(x, y) => holds(prog, *x, b) && holds(prog, *y, b + size(*x)),
            Pattern::Alt(x, y) => {
                &&& prog[b] == Op::Split(b + 1, b + size(*x) + 2)
                &&& holds(prog, *x, b + 1)
                &&& prog[b + size(*x) + 1] == Op::Jmp(b + size(*x) + size(*y) + 2)
                &&& holds(prog, *y, b + size(*x) + 2)
            },
            Pattern::Last(p) => holds(prog, *p, b),
            Pattern::Star(p) => {
                &&& prog[b] == Op::Split(b + 1, b + size(*p) + 2)
                &&& holds(prog, *p, b + 1)
                &&& may_be_empty(*p) ==> holds(prog, Pattern::Plus(p), b + 1)
                &&& prog[b + size(*p) + 1] == (if may_be_empty(*p) {
                    Op::Split(b + 1, b + size(*p) + 2)
                } else {
                    Op::Jmp(b)
                })
            },
            Pattern::Plus(p) => {
                &&& holds(prog, *p, b)
                &&& prog[b + size(*p)] == Op::Split(b, b + size(*p) + 1)
            },
            Pattern::Quest(p) => {
                &&& prog[b] == Op::Split(b + 1, b + size(*p) + 1)
                &&& holds(prog, *p, b + 1)
            },
            _ => true,
        },
{
    let code = compile(pattern, b);
    lemma_compile(pattern, b);
    match pattern {
        Pattern::Fail | Pattern::Class(_) | Pattern::Start | Pattern::End => {
            assert(prog[b + 0] == code[0]);
        },
        Pattern::Cat(x, y) => {
            lemma_compile(*x, b);
            lemma_compile(*y, b + size(*x));
            assert forall|i: int| 0 <= i < size(*x) implies prog[b + i] == #[trigger] compile(
                *x,
                b,
            )[i] by {
                assert(code[i] == compile(*x, b)[i]);
            }
            assert forall|i: int| 0 <= i < size(*y) implies prog[b + size(*x) + i]
                == #[trigger] compile(*y, b + size(*x))[i] by {
                assert(code[size(*x) + i] == compile(*y, b + size(*x))[i]);
            }
        },
        Pattern::Alt(x, y) => {
            lemma_compile(*x, b + 1);
            lemma_compile(*y, b + size(*x) + 2);
            assert(prog[b + 0] == code[0]);
            assert(prog[b + (size(*x) + 1)] == code[1 + size(*x) as int]);
            assert forall|i: int| 0 <= i < size(*x) implies prog[b + 1 + i] == #[trigger] compile(
                *x,
                b + 1,
            )[i] by {
                assert(code[1 + i] == compile(*x, b + 1)[i]);
            }
            assert forall|i: int| 0 <= i < size(*y) implies prog[b + size(*x) + 2 + i]
                == #[trigger] compile(*y, b + size(*x) + 2)[i] by {
                assert(code[size(*x) + 2 + i] == compile(*y, b + size(*x) + 2)[i]);
            }
        },
        Pattern::Last(_) => {},
        Pattern::Star(p) => {
            lemma_compile(*p, b + 1);
            lemma_compile(Pattern::Plus(p), b + 1);
            let plus = compile(Pattern::Plus(p), b + 1);
            assert(prog[b + 0] == code[0]);
            assert(prog[b + (size(*p) + 1)] == code[1 + size(*p) as int]);
            if may_be_empty(*p) {
                assert forall|i: int| 0 <= i < size(*p) + 1 implies prog[b + 1 + i]
                    == #[trigger] plus[i] by {
                    assert(prog[b + (1 + i)] == code[1 + i]);
                    assert(code[1 + i] == plus[i]);
                }
            }
            assert forall|i: int| 0 <= i < size(*p) implies prog[b + 1 + i] == #[trigger] compile(
                *p,
                b + 1,
            )[i] by {
                assert(code[1 + i] == compile(*p, b + 1)[i]);
            }
        },
        Pattern::Plus(p) => {
            lemma_compile(*p, b);
            assert(prog[b + size(*p)] == code[size(*p) as int]);
            assert forall|i: int| 0 <= i < size(*p) implies prog[b + i] == #[trigger] compile(
                *p,
                b,
            )[i] by {
                assert(code[i] == compile(*p, b)[i]);
            }
        },
        Pattern::Quest(p) => {
            lemma_compile(*p, b + 1);
            assert(prog[b + 0] == code[0]);
            assert forall|i: int| 0 <= i < size(*p) implies prog[b + 1 + i] == #[trigger] compile(
                *p,
                b + 1,
            )[i] by {
                assert(code[1 + i] == compile(*p, b + 1)[i]);
            }
        },
        _ => {},
    }
}

/// One instruction of a compiled program.
#[derive(Clone, Debug)]
pub enum Inst {
    /// Consume one byte in the class, then fall through to the next instruction.
    Byte(Box<ByteClass>),
    /// Fork: the first target has the higher priority.
    Split(usize, usize),
    /// Unconditional jump.
    Jmp(usize),
    /// Accept the current match.
    Match,
    /// `^`: goes on only at input position 0.
    StartAssert,
    /// `$`: goes on only at the end of the input.
    EndAssert,
}

impl View for Inst {
    type V = Op;

    open spec fn view(&self) -> Op {
        match self {
            Inst::Byte(class) => Op::Byte(class@),
            Inst::Split(x, y) => Op::Split(*x as int, *y as int),
            Inst::Jmp(t) => Op::Jmp(*t as int),
            Inst::Match => Op::Match,
            Inst::StartAssert => Op::StartAssert,
            Inst::EndAssert => Op::EndAssert,
        }
    }
}

/// The instructions as a mathematical program.
pub open spec fn ops(insts: Seq<Inst>) -> Seq<Op> {
    insts.map_values(|i: Inst| i@)
}

/// Every instruction goes on only at instructions of the program.
pub open spec fn well_formed(prog: Seq<Op>) -> bool {
    &&& prog.len() > 0
    &&& forall|pc: int|
        0 <= pc < prog.len() ==> op_within(#[trigger] prog[pc], pc, 0, prog.len() - 1)
}

/// A compiled program.
pub struct Program {
    insts: Vec<Inst>,
}

impl View for Program {
    type V = Seq<Op>;

    closed spec fn view(&self) -> Seq<Op> {
        ops(self.insts@)
    }
}

impl Program {
    #[verifier::type_invariant]
    spec fn valid(self) -> bool {
        well_formed(ops(self.insts@))
    }

    /// Compile a pattern into a program that ends in `Match`.
    pub fn new(ast: &Node) -> (prog: Self)
        ensures
            prog@ == program_of(ast@),
    {
        let mut insts: Vec<Inst> = Vec::new();
        emit(ast, &mut insts);
        insts.push(Inst::Match);
        proof {
            lemma_compile(ast@, 0);
            assert(ops(insts@) =~= program_of(ast@));
            assert forall|pc: int| 0 <= pc < ops(insts@).len() implies op_within(
                #[trigger] ops(insts@)[pc],
                pc,
                0,
                ops(insts@).len() - 1,
            ) by {
                if pc < size(ast@) {
                    assert(ops(insts@)[pc] == compile(ast@, 0)[pc]);
                }
            }
        }
        Self { insts }
    }

    /// The instructions.
    pub fn insts(&self) -> (insts: &Vec<Inst>)
        ensures
            ops(insts@) == self@,
            insts.len() == self@.len(),
            well_formed(self@),
    {
        proof {
            use_type_invariant(self);
        }
        &self.insts
    }
}

/// Set the first target of the fork at `idx`.
fn set_l1(prog: &mut Vec<Inst>, idx: usize, target: usize)
    requires
        idx < old(prog).len(),
    ensures
        ops(final(prog)@) == (match ops(old(prog)@)[idx as int] {
            Op::Split(_, y) => ops(old(prog)@).update(idx as int, Op::Split(target as int, y)),
            _ => ops(old(prog)@),
        }),
        final(prog).len() == old(prog).len(),
{
    if let Inst::Split(_, y) = &prog[idx] {
        let y: usize = *y;
        prog.set(idx, Inst::Split(target, y));
    }
    assert(ops(prog@) =~= (match ops(old(prog)@)[idx as int] {
        Op::Split(_, y) => ops(old(prog)@).update(idx as int, Op::Split(target as int, y)),
        _ => ops(old(prog)@),
    }));
}

/// Set the second target of the fork at `idx`.
fn set_l2(prog: &mut Vec<Inst>, idx: usize, target: usize)
    requires
        idx < old(prog).len(),
    ensures
        ops(final(prog)@) == (match ops(old(prog)@)[idx as int] {
            Op::Split(x, _) => ops(old(prog)@).update(idx as int, Op::Split(x, target as int)),
            _ => ops(old(prog)@),
        }),
        final(prog).len() == old(prog).len(),
{
    if let Inst::Split(x, _) = &prog[idx] {
        let x: usize = *x;
        prog.set(idx, Inst::Split(x, target));
    }
    assert(ops(prog@) =~= (match ops(old(prog)@)[idx as int] {
        Op::Split(x, _) => ops(old(prog)@).update(idx as int, Op::Split(x, target as int)),
        _ => ops(old(prog)@),
    }));
}

/// Append the code for `node`.
fn emit(node: &Node, prog: &mut Vec<Inst>)
    ensures
        ops(final(prog)@) == ops(old(prog)@) + compile(node@, old(prog).len() as int),
        final(prog).len() == old(prog).len() + size(node@),
    decreases *node, 0int,
{
    let ghost before = ops(prog@);
    let ghost base = prog.len() as int;
    proof {
        lemma_compile(node@, base);
    }
    match node {
        Node::Empty => {
            assert(ops(prog@) =~= before + compile(node@, base));
        },
        Node::Class(class) => {
            prog.push(Inst::Byte(Box::new(**class)));
            assert(ops(prog@) =~= before + compile(node@, base));
        },
        Node::StartAnchor => {
            prog.push(Inst::StartAssert);
            assert(ops(prog@) =~= before + compile(node@, base));
        },
        Node::EndAnchor => {
            prog.push(Inst::EndAssert);
            assert(ops(prog@) =~= before + compile(node@, base));
        },
        Node::Concat(parts) => {
            emit_concat(parts, 0, prog);
        },
        Node::Alt(branches) => {
            emit_alt(branches, 0, prog);
        },
        Node::Star(inner) => {
            let sidx: usize = prog.len();
            prog.push(Inst::Split(0, 0));
            let body: usize = prog.len();
            set_l1(prog, sidx, body);
            let ghost head = ops(prog@);
            assert(head =~= before + seq![Op::Split(base + 1, 0)]);
            emit(inner, prog);
            let ghost looped = head + compile(inner@, base + 1);
            assert(ops(prog@) =~= looped);
            if inner.nullable() {
                let again: usize = prog.len();
                prog.push(Inst::Split(0, 0));
                let end: usize = prog.len();
                assert(ops(prog@) =~= looped + seq![Op::Split(0, 0)]);
                set_l1(prog, again, body);
                assert(ops(prog@) =~= looped + seq![Op::Split(base + 1, 0)]);
                set_l2(prog, again, end);
                assert(ops(prog@) =~= looped + seq![Op::Split(base + 1, end as int)]);
            } else {
                prog.push(Inst::Jmp(sidx));
                assert(ops(prog@) =~= looped + seq![Op::Jmp(base)]);
            }
            let end: usize = prog.len();
            assert(ops(prog@)[base] == Op::Split(base + 1, 0));
            set_l2(prog, sidx, end);
            assert(ops(prog@) =~= before + compile(node@, base));
        },
        Node::Plus(inner) => {
            let body_start: usize = prog.len();
            emit(inner, prog);
            let ghost body = ops(prog@);
            let sidx: usize = prog.len();
            prog.push(Inst::Split(0, 0));
            assert(ops(prog@) =~= body + seq![Op::Split(0, 0)]);
            set_l1(prog, sidx, body_start);
            assert(ops(prog@) =~= body + seq![Op::Split(base, 0)]);
            let end: usize = prog.len();
            set_l2(prog, sidx, end);
            assert(ops(prog@) =~= body + seq![Op::Split(base, base + size(inner@) + 1)]);
            assert(ops(prog@) =~= before + compile(node@, base));
        },
        Node::Quest(inner) => {
            let sidx: usize = prog.len();
            prog.push(Inst::Split(0, 0));
            let body: usize = prog.len();
            set_l1(prog, sidx, body);
            let ghost head = ops(prog@);
            assert(head =~= before + seq![Op::Split(base + 1, 0)]);
            emit(inner, prog);
            let end: usize = prog.len();
            assert(ops(prog@) =~= head + compile(inner@, base + 1));
            assert(ops(prog@)[base] == Op::Split(base + 1, 0));
            set_l2(prog, sidx, end);
            assert(ops(prog@) =~= before + compile(node@, base));
        },
    }
}

/// Append the code for the parts of a concatenation from the `i`-th on.
fn emit_concat(parts: &Vec<Node>, i: usize, prog: &mut Vec<Inst>)
    ensures
        ops(final(prog)@) == ops(old(prog)@) + compile(
            cat_of(parts@, i as int),
            old(prog).len() as int,
        ),
        final(prog).len() == old(prog).len() + size(cat_of(parts@, i as int)),
    decreases parts@, parts.len() - i,
{
    let ghost before = ops(prog@);
    let ghost base = prog.len() as int;
    proof {
        lemma_compile(cat_of(parts@, i as int), base);
    }
    if i < parts.len() {
        emit(&parts[i], prog);
        emit_concat(parts, i + 1, prog);
    }
    assert(ops(prog@) =~= before + compile(cat_of(parts@, i as int), base));
}

/// Append the code for the branches of an alternation from the `i`-th on.
fn emit_alt(branches: &Vec<Node>, i: usize, prog: &mut Vec<Inst>)
    ensures
        ops(final(prog)@) == ops(old(prog)@) + compile(
            alt_of(branches@, i as int),
            old(prog).len() as int,
        ),
        final(prog).len() == old(prog).len() + size(alt_of(branches@, i as int)),
    decreases branches@, branches.len() - i,
{
    let ghost before = ops(prog@);
    let ghost base = prog.len() as int;
    proof {
        lemma_compile(alt_of(branches@, i as int), base);
    }
    if i >= branches.len() {
        prog.push(Inst::Byte(Box::new(ByteClass::empty())));
    } else if i + 1 == branches.len() {
        emit(&branches[i], prog);
    } else {
        let sidx: usize = prog.len();
        prog.push(Inst::Split(0, 0));
        let body: usize = prog.len();
        set_l1(prog, sidx, body);
        let ghost first = pattern_of(branches@[i as int]);
        let ghost fork = ops(prog@);
        assert(fork =~= before + seq![Op::Split(base + 1, 0)]);
        emit(&branches[i], prog);
        let jidx: usize = prog.len();
        prog.push(Inst::Jmp(0));
        let next_branch: usize = prog.len();
        assert(ops(prog@) =~= fork + compile(first, base + 1) + seq![Op::Jmp(0)]);
        assert(ops(prog@)[base] == Op::Split(base + 1, 0));
        set_l2(prog, sidx, next_branch);
        let ghost head = ops(prog@);
        assert(head =~= before + seq![Op::Split(base + 1, base + size(first) + 2)] + compile(
            first,
            base + 1,
        ) + seq![Op::Jmp(0)]);
        emit_alt(branches, i + 1, prog);
        let end: usize = prog.len();
        let ghost rest = alt_of(branches@, i + 1);
        proof {
            lemma_compile(first, base + 1);
            lemma_compile(rest, base + size(first) + 2);
        }
        let ghost whole = ops(prog@);
        assert(whole == head + compile(rest, base + size(first) + 2));
        prog.set(jidx, Inst::Jmp(end));
        assert(ops(prog@) =~= whole.update(jidx as int, Op::Jmp(end as int)));
    }
    assert(ops(prog@) =~= before + compile(alt_of(branches@, i as int), base));
}

/// One line of the search: where it stands and where its match began.
#[derive(Clone, Copy, Debug)]
struct Thread {
    pc: usize,
    start: usize,
}

/// Generation-stamped "have we added this counter yet?" set. It avoids both duplicate
/// threads and infinite loops that consume nothing, as in `()*`.
struct Seen {
    stamps: Vec<u32>,
    gen: u32,
}

impl Seen {
    /// No stamp is later than the current generation.
    spec fn valid(&self, n: int) -> bool {
        &&& self.stamps.len() == n
        &&& forall|i: int| 0 <= i < self.stamps.len() ==> self.stamps[i] <= self.gen
    }

    /// The counters marked in the current generation.
    spec fn marked(&self) -> Set<int> {
        Set::new(|pc: int| 0 <= pc < self.stamps.len() && self.stamps[pc] == self.gen)
    }

    fn new(n: usize) -> (seen: Self)
        ensures
            seen.valid(n as int),
    {
        Self { stamps: vec![0; n], gen: 0 }
    }

    /// Unmark everything.
    fn reset(&mut self)
        requires
            old(self).valid(old(self).stamps.len() as int),
        ensures
            final(self).valid(old(self).stamps.len() as int),
            final(self).marked() == Set::<int>::empty(),
    {
        self.gen = self.gen.wrapping_add(1);
        if self.gen == 0 {
            let mut i: usize = 0;
            while i < self.stamps.len()
                invariant
                    i <= self.stamps.len(),
                    self.stamps.len() == old(self).stamps.len(),
                    forall|j: int| 0 <= j < i ==> self.stamps[j] == 0,
                decreases self.stamps.len() - i,
            {
                self.stamps.set(i, 0);
                i += 1;
            }
            self.gen = 1;
        }
        assert(self.marked() =~= Set::<int>::empty());
    }

    /// Mark `pc`; return false if it was marked already.
    fn mark(&mut self, pc: usize) -> (fresh: bool)
        requires
            old(self).valid(old(self).stamps.len() as int),
            pc < old(self).stamps.len(),
        ensures
            final(self).valid(old(self).stamps.len() as int),
            fresh == !old(self).marked().contains(pc as int),
            final(self).marked() == old(self).marked().insert(pc as int),
    {
        let seen = self.stamps[pc] == self.gen;
        if !seen {
            self.stamps.set(pc, self.gen);
        }
        assert(self.marked() =~= old(self).marked().insert(pc as int));
        !seen
    }
}

/// The threads as pairs of a counter and a start.
spec fn pairs(list: Seq<Thread>) -> Seq<(int, int)> {
    list.map_values(|t: Thread| (t.pc as int, t.start as int))
}

/// Close `pc` over the instructions that consume nothing at `pos`, and push a thread
/// for each ready instruction, in order of priority.
fn add_thread(
    out: &mut Vec<Thread>,
    prog: &Vec<Inst>,
    pc: usize,
    start: usize,
    pos: usize,
    len: usize,
    seen: &mut Seen,
)
    requires
        well_formed(ops(prog@)),
        pc < prog.len(),
        old(seen).valid(prog.len() as int),
    ensures
        final(seen).valid(prog.len() as int),
        ({
            let w = walk(
                ops(prog@),
                len as int,
                pos as int,
                seq![pc as int],
                old(seen).marked(),
            );
            &&& final(seen).marked() == w.seen
            &&& pairs(final(out)@) == pairs(old(out)@) + begun(w.ready, start as int)
        }),
    decreases room(prog.len() as int, old(seen).marked()),
{
    let ghost p = ops(prog@);
    let ghost n = prog.len() as int;
    let ghost l = len as int;
    let ghost at = pos as int;
    let ghost was = seen.marked();
    let ghost before = pairs(out@);
    let ghost rest: Seq<int> = seq![pc as int].drop_first();
    assert(rest =~= Seq::<int>::empty());
    assert(before + begun(Seq::<int>::empty(), start as int) =~= before);
    if !seen.mark(pc) {
        assert(was.insert(pc as int) =~= was);
        assert(walk(p, l, at, rest, was).seen == was);
        return;
    }
    proof {
        lemma_room(n, was, pc as int);
        assert(p[pc as int] == prog@[pc as int]@);
        assert(arms(p, l, at, pc as int) + rest =~= arms(p, l, at, pc as int));
    }
    let ghost here = seen.marked();
    assert(walk(p, l, at, Seq::<int>::empty(), here).seen == here);
    match &prog[pc] {
        Inst::Jmp(target) => {
            add_thread(out, prog, *target, start, pos, len, seen);
        },
        Inst::Split(x, y) => {
            add_thread(out, prog, *x, start, pos, len, seen);
            let ghost w1 = walk(p, l, at, seq![*x as int], here);
            let ghost w2 = walk(p, l, at, seq![*y as int], w1.seen);
            proof {
                lemma_walk(p, l, at, seq![*x as int], here);
                lemma_room_shrinks(n, here, w1.seen);
                lemma_walk_append(p, l, at, seq![*x as int], seq![*y as int], here);
                assert(seq![*x as int] + seq![*y as int] =~= seq![*x as int, *y as int]);
            }
            add_thread(out, prog, *y, start, pos, len, seen);
            assert(pairs(out@) =~= before + begun(w1.ready + w2.ready, start as int));
        },
        Inst::StartAssert => {
            if pos == 0 {
                add_thread(out, prog, pc + 1, start, pos, len, seen);
            }
        },
        Inst::EndAssert => {
            if pos == len {
                add_thread(out, prog, pc + 1, start, pos, len, seen);
            }
        },
        _ => {
            out.push(Thread { pc, start });
            assert(seq![pc as int] + Seq::<int>::empty() =~= seq![pc as int]);
            assert(pairs(out@) =~= before + begun(seq![pc as int], start as int));
        },
    }
}

pub proof fn lemma_room_shrinks(n: int, a: Set<int>, b: Set<int>)
    requires
        a.subset_of(b),
    ensures
        room(n, b) <= room(n, a),
{
    if n > 0 {
        lemma_int_range(0, n);
        assert(set_int_range(0, n).difference(b).subset_of(set_int_range(0, n).difference(a)));
        lemma_len_subset(set_int_range(0, n).difference(b), set_int_range(0, n).difference(a));
    } else {
        assert(set_int_range(0, n).difference(b) =~= set_int_range(0, n).difference(a));
    }
}

/// Find the leftmost-first greedy match at or after `scan`.
///
/// Where `unanchored` is false only the start at `scan` is seeded, and a match, if
/// there is one, begins exactly there.
pub fn pike_find(prog: &Program, input: &[u8], scan: usize, unanchored: bool) -> (hit: Option<
    (usize, usize),
>)
    ensures
        found(hit) == vm_find(prog@, input@, scan as int, unanchored),
{
    proof {
        use_type_invariant(prog);
    }
    let insts: &Vec<Inst> = &prog.insts;
    let len: usize = input.len();
    if scan > len {
        return None;
    }
    let ghost p = ops(insts@);
    let ghost answer = vm_find(p, input@, scan as int, unanchored);
    let mut curr: Vec<Thread> = Vec::new();
    let mut next: Vec<Thread> = Vec::new();
    let mut curr_seen = Seen::new(insts.len());
    let mut next_seen = Seen::new(insts.len());

    let mut pos: usize = scan;
    let mut best: Option<(usize, usize)> = None;

    curr_seen.reset();
    add_thread(&mut curr, insts, 0, scan, pos, len, &mut curr_seen);
    let ghost mut roots: Seq<(int, int)> = seq![(0int, scan as int)];
    proof {
        lemma_run_begins(p, input@, scan as int, unanchored);
        assert(roots.drop_last() =~= Seq::<(int, int)>::empty());
        assert(close(p, len as int, pos as int, roots.drop_last()).seen == Set::<int>::empty());
        assert(pairs(curr@) =~= close(p, len as int, pos as int, roots).threads);
    }
    loop
        invariant_except_break
            pairs(curr@) == close(p, len as int, pos as int, roots).threads,
            curr_seen.marked() == close(p, len as int, pos as int, roots).seen,
            answer == or_else(
                best_of(p, input@, pos as int, pairs(curr@)),
                fallback(p, input@, pos as int, unanchored, found(best)),
            ),
        invariant
            well_formed(p),
            p == ops(insts@),
            p.len() == insts.len(),
            len == input.len(),
            scan <= pos <= len,
            curr_seen.valid(p.len() as int),
            next_seen.valid(p.len() as int),
        ensures
            found(best) == answer,
        decreases len - pos,
    {
        next.clear();
        next_seen.reset();
        let mut matched_this_step: bool = false;
        let ghost threads = pairs(curr@);
        let ghost was_best = best;
        let ghost byte = if pos < len {
            input@[pos as int]
        } else {
            0u8
        };
        let mut i: usize = 0;
        proof {
            assert(threads.take(0) =~= Seq::<(int, int)>::empty());
            assert(pairs(next@) =~= Seq::<(int, int)>::empty());
            lemma_close_ready(p, len as int, pos as int, roots);
        }
        while i < curr.len() && !matched_this_step
            invariant
                i <= curr.len(),
                well_formed(p),
                p == ops(insts@),
                p.len() == insts.len(),
                len == input.len(),
                pos <= len,
                pos < len ==> byte == input@[pos as int],
                threads == pairs(curr@),
                threads.len() == curr.len(),
                forall|j: int| 0 <= j < threads.len() ==> is_ready(p, (#[trigger] threads[j]).0),
                next_seen.valid(p.len() as int),
                pos < len ==> ({
                    let c = close(
                        p,
                        len as int,
                        pos + 1,
                        step_roots(p, threads.take(i as int), byte),
                    );
                    pairs(next@) == c.threads && next_seen.marked() == c.seen
                }),
                pos == len ==> next.len() == 0,
                matched_this_step <==> accepted(p, threads.take(i as int), pos as int) is Some,
                matched_this_step ==> found(best) == accepted(
                    p,
                    threads.take(i as int),
                    pos as int,
                ),
                !matched_this_step ==> best == was_best,
            decreases curr.len() - i,
        {
            let thread = curr[i];
            let ghost one = seq![(thread.pc as int, thread.start as int)];
            let ghost on = step_roots(p, threads.take(i as int), byte);
            proof {
                assert(threads[i as int] == one[0]);
                assert(p[thread.pc as int] == insts@[thread.pc as int]@);
                assert(threads.take(i + 1) =~= threads.take(i as int) + one);
                lemma_step_more(p, threads.take(i as int), byte, one, pos as int);
                assert(one.drop_first() =~= Seq::<(int, int)>::empty());
                assert(step_roots(p, one.drop_first(), byte) == Seq::<(int, int)>::empty());
                assert(accepted(p, one.drop_first(), pos as int) is None);
                assert(on + Seq::<(int, int)>::empty() =~= on);
            }
            match &insts[thread.pc] {
                Inst::Byte(class) => {
                    if pos < len && class.matches(input[pos]) {
                        add_thread(
                            &mut next,
                            insts,
                            thread.pc + 1,
                            thread.start,
                            pos + 1,
                            len,
                            &mut next_seen,
                        );
                        proof {
                            let more = on.push((thread.pc + 1, thread.start as int));
                            assert(step_roots(p, one, byte) =~= seq![
                                (thread.pc + 1, thread.start as int),
                            ]);
                            assert(on + step_roots(p, one, byte) =~= more);
                            assert(more.drop_last() =~= on);
                        }
                    }
                },
                Inst::Match => {
                    best = Some((thread.start, pos));
                    matched_this_step = true;
                },
                _ => {},
            }
            i += 1;
        }
        proof {
            let before = threads.take(i as int);
            assert(threads =~= before + threads.skip(i as int));
            if matched_this_step {
                lemma_step_cut(p, before, byte, threads.skip(i as int), pos as int);
            } else {
                assert(threads =~= before);
            }
            assert(found(best) == or_else(accepted(p, threads, pos as int), found(was_best)));
            if pos == len {
                lemma_run_ends(p, input@, unanchored, threads, found(was_best));
            } else {
                lemma_run_goes_on(p, input@, pos as int, unanchored, threads, found(was_best));
            }
        }
        if pos == len {
            break;
        }
        if best.is_some() && next.len() == 0 {
            break;
        }
        pos += 1;
        std::mem::swap(&mut curr, &mut next);
        std::mem::swap(&mut curr_seen, &mut next_seen);
        proof {
            roots = step_roots(p, threads, byte);
        }
        if unanchored && best.is_none() {
            add_thread(&mut curr, insts, 0, pos, pos, len, &mut curr_seen);
            proof {
                let more = roots.push((0, pos as int));
                assert(more.drop_last() =~= roots);
                roots = more;
            }
        }
    }
    best
}

/// Find all non-overlapping leftmost-first matches of `re` in `input`.
pub fn find_all(re: &Regex, input: &[u8], out: &mut Vec<Span>)
    ensures
        ranges(final(out)@) == ranges(old(out)@) + vm_matches(re.ast@, input@),
{
    let prog = Program::new(&re.ast);
    let find_at = |scan: usize| -> (hit: Option<(usize, usize)>)
        ensures
            found(hit) == vm_find(prog@, input@, scan as int, true),
        { pike_find(&prog, input, scan, true) };
    let ghost f = |scan: int|
        leftmost(
            |start: int| preferred_end(program_of(re.ast@), input@, start),
            input@.len() as int,
            scan,
        );
    proof {
        assert forall|scan: usize, m: Option<(usize, usize)>|
            #![trigger find_at.ensures((scan,), m)]
            find_at.ensures((scan,), m) && scan <= input.len() implies found(m) == f(scan as int)
            && (m matches Some((start, end)) ==> scan <= start <= end) by {
            lemma_vm_find_valid(program_of(re.ast@), input@, scan as int);
        }
    }
    scan_matches(input.len(), find_at, out);
}

}
