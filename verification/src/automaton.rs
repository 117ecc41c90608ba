//! Priority automata: programs of byte tests, jumps and forks, and which match of
//! an input a program prefers.
//!
//! A program state is a pair of a program counter and a position in the input.
//! From a fork the first arm is preferred over the second. The preferred match is
//! the one that a depth-first search comes to first when it tries the arms in that
//! order and enters no state twice.
use vstd::prelude::*;
use vstd::set_lib::{lemma_int_range, lemma_len_subset, set_int_range};

verus! {

/// One instruction of a program.
pub enum Op {
    /// Consume one byte of the set, then go on with the next instruction.
    Byte(Set<u8>),
    /// Go on at both targets; the first has the higher priority.
    Split(int, int),
    /// Go on at the target.
    Jmp(int),
    /// Accept.
    Match,
    /// Go on with the next instruction, at the start of the input only.
    StartAssert,
    /// Go on with the next instruction, at the end of the input only.
    EndAssert,
}

/// Whether `pc` is the counter of an instruction of `prog`.
pub open spec fn in_prog(prog: Seq<Op>, pc: int) -> bool {
    0 <= pc < prog.len()
}

/// Whether `pc` is at an instruction that consumes or accepts.
pub open spec fn is_ready(prog: Seq<Op>, pc: int) -> bool {
    in_prog(prog, pc) && (prog[pc] is Byte || prog[pc] is Match)
}

/// The counters that follow `pc` without consuming, at position `pos` of an input
/// of length `len`, in order of priority.
pub open spec fn arms(prog: Seq<Op>, len: int, pos: int, pc: int) -> Seq<int> {
    if !in_prog(prog, pc) {
        Seq::empty()
    } else {
        match prog[pc] {
            Op::Jmp(t) => seq![t],
            Op::Split(x, y) => seq![x, y],
            Op::StartAssert => if pos == 0 { seq![pc + 1] } else { Seq::empty() },
            Op::EndAssert => if pos == len { seq![pc + 1] } else { Seq::empty() },
            Op::Byte(_) => Seq::empty(),
            Op::Match => Seq::empty(),
        }
    }
}

/// What a walk over the non-consuming instructions has found.
pub struct Walk {
    /// The consuming and accepting instructions, in order of priority.
    pub ready: Seq<int>,
    /// Every counter entered.
    pub seen: Set<int>,
}

/// How many counters of a program of length `n` are not in `seen`.
pub open spec fn room(n: int, seen: Set<int>) -> nat {
    set_int_range(0, n).difference(seen).len()
}

pub proof fn lemma_room(n: int, seen: Set<int>, pc: int)
    requires
        0 <= pc < n,
        !seen.contains(pc),
    ensures
        room(n, seen.insert(pc)) < room(n, seen),
{
    lemma_int_range(0, n);
    let all = set_int_range(0, n);
    assert(all.difference(seen).remove(pc) =~= all.difference(seen.insert(pc)));
    assert(all.difference(seen).contains(pc));
}

/// Walk depth first from the counters of `stack`, the first one first, entering no
/// counter of `seen` and none twice.
pub open spec fn walk(prog: Seq<Op>, len: int, pos: int, stack: Seq<int>, seen: Set<int>) -> Walk
    decreases room(prog.len() as int, seen), stack.len(),
{
    if stack.len() == 0 {
        Walk { ready: Seq::empty(), seen }
    } else {
        let pc = stack[0];
        let rest = stack.drop_first();
        if !in_prog(prog, pc) || seen.contains(pc) {
            walk(prog, len, pos, rest, seen)
        } else {
            proof {
                lemma_room(prog.len() as int, seen, pc);
            }
            let w = walk(prog, len, pos, arms(prog, len, pos, pc) + rest, seen.insert(pc));
            if is_ready(prog, pc) {
                Walk { ready: seq![pc] + w.ready, seen: w.seen }
            } else {
                w
            }
        }
    }
}

/// Every state of a program of length `n` on an input with `m` positions.
pub open spec fn grid(n: int, m: int) -> Set<(int, int)> {
    Set::new(|s: (int, int)| 0 <= s.0 < n && 0 <= s.1 < m)
}

proof fn lemma_grid_finite(n: int, m: int)
    ensures
        grid(n, m).finite(),
    decreases m,
{
    if m <= 0 || n <= 0 {
        assert(grid(n, m) =~= Set::empty());
    } else {
        lemma_grid_finite(n, m - 1);
        lemma_int_range(0, n);
        let row = set_int_range(0, n).map(|pc: int| (pc, m - 1));
        set_int_range(0, n).lemma_map_finite(|pc: int| (pc, m - 1));
        assert forall|s: (int, int)| grid(n, m).contains(s) implies grid(n, m - 1).union(
            row,
        ).contains(s) by {
            if s.1 == m - 1 {
                assert(set_int_range(0, n).contains(s.0));
                assert(row.contains(s));
            }
        }
        lemma_len_subset(grid(n, m), grid(n, m - 1).union(row));
    }
}

/// How many states are not in `seen`.
pub open spec fn space(n: int, m: int, seen: Set<(int, int)>) -> nat {
    grid(n, m).difference(seen).len()
}

pub proof fn lemma_space(n: int, m: int, seen: Set<(int, int)>, s: (int, int))
    requires
        grid(n, m).contains(s),
        !seen.contains(s),
    ensures
        space(n, m, seen.insert(s)) < space(n, m, seen),
{
    lemma_grid_finite(n, m);
    let all = grid(n, m);
    assert(all.difference(seen).remove(s) =~= all.difference(seen.insert(s)));
    assert(all.difference(seen).contains(s));
}

/// Whether `s` is a state of `prog` on `input`.
pub open spec fn in_space(prog: Seq<Op>, input: Seq<u8>, s: (int, int)) -> bool {
    in_prog(prog, s.0) && 0 <= s.1 <= input.len()
}

/// The states that follow `s`, in order of priority.
pub open spec fn moves(prog: Seq<Op>, input: Seq<u8>, s: (int, int)) -> Seq<(int, int)> {
    if !in_space(prog, input, s) {
        Seq::empty()
    } else {
        match prog[s.0] {
            Op::Byte(set) => if s.1 < input.len() && set.contains(input[s.1]) {
                seq![(s.0 + 1, s.1 + 1)]
            } else {
                Seq::empty()
            },
            _ => at(arms(prog, input.len() as int, s.1, s.0), s.1),
        }
    }
}

/// The counters `pcs`, all at position `pos`.
pub open spec fn at(pcs: Seq<int>, pos: int) -> Seq<(int, int)> {
    Seq::new(pcs.len(), |i: int| (pcs[i], pos))
}

/// Search depth first from the states of `stack`, the first one first, entering no
/// state of `seen` and none twice: the position at which the program first accepts,
/// if it does, and every state entered by then.
pub open spec fn search(
    prog: Seq<Op>,
    input: Seq<u8>,
    stack: Seq<(int, int)>,
    seen: Set<(int, int)>,
) -> (Option<int>, Set<(int, int)>)
    decreases space(prog.len() as int, input.len() as int + 1, seen), stack.len(),
{
    if stack.len() == 0 {
        (None, seen)
    } else {
        let s = stack[0];
        let rest = stack.drop_first();
        if !in_space(prog, input, s) || seen.contains(s) {
            search(prog, input, rest, seen)
        } else if prog[s.0] is Match {
            (Some(s.1), seen.insert(s))
        } else {
            proof {
                lemma_space(prog.len() as int, input.len() as int + 1, seen, s);
            }
            search(prog, input, moves(prog, input, s) + rest, seen.insert(s))
        }
    }
}

/// The end of the match that `prog` prefers among those that begin at counter `pc`
/// and position `pos`.
pub open spec fn preferred_from(prog: Seq<Op>, input: Seq<u8>, pc: int, pos: int) -> Option<int> {
    search(prog, input, seq![(pc, pos)], Set::empty()).0
}

/// The end of the match that `prog` prefers among those that begin at `start`.
pub open spec fn preferred_end(prog: Seq<Op>, input: Seq<u8>, start: int) -> Option<int> {
    preferred_from(prog, input, 0, start)
}

// ---------------------------------------------------------------------------
// Walks.
// ---------------------------------------------------------------------------

/// A walk over two stacks is the walk over the first and then over the second.
pub proof fn lemma_walk_append(
    prog: Seq<Op>,
    len: int,
    pos: int,
    a: Seq<int>,
    b: Seq<int>,
    seen: Set<int>,
)
    ensures
        ({
            let wa = walk(prog, len, pos, a, seen);
            let wb = walk(prog, len, pos, b, wa.seen);
            let w = walk(prog, len, pos, a + b, seen);
            w.ready == wa.ready + wb.ready && w.seen == wb.seen
        }),
    decreases room(prog.len() as int, seen), a.len(),
{
    let wa = walk(prog, len, pos, a, seen);
    let wb = walk(prog, len, pos, b, wa.seen);
    let w = walk(prog, len, pos, a + b, seen);
    if a.len() == 0 {
        assert(a + b =~= b);
        assert(w.ready =~= wa.ready + wb.ready);
    } else {
        let pc = a[0];
        let rest = a.drop_first();
        assert((a + b).drop_first() =~= rest + b);
        if !in_prog(prog, pc) || seen.contains(pc) {
            lemma_walk_append(prog, len, pos, rest, b, seen);
        } else {
            lemma_room(prog.len() as int, seen, pc);
            let next = arms(prog, len, pos, pc);
            assert(next + (rest + b) =~= (next + rest) + b);
            lemma_walk_append(prog, len, pos, next + rest, b, seen.insert(pc));
            assert(w.ready =~= wa.ready + wb.ready);
        }
    }
}

/// `seen` is closed but for what is still on the stack.
pub open spec fn closed_but(
    prog: Seq<Op>,
    len: int,
    pos: int,
    seen: Set<int>,
    stack: Seq<int>,
) -> bool {
    forall|x: int, i: int|
        #![trigger seen.contains(x), arms(prog, len, pos, x)[i]]
        seen.contains(x) && 0 <= i < arms(prog, len, pos, x).len() && in_prog(
            prog,
            arms(prog, len, pos, x)[i],
        ) ==> seen.contains(arms(prog, len, pos, x)[i]) || stack.contains(
            arms(prog, len, pos, x)[i],
        )
}

/// What a walk enters and finds.
pub proof fn lemma_walk(prog: Seq<Op>, len: int, pos: int, stack: Seq<int>, seen: Set<int>)
    ensures
        ({
            let w = walk(prog, len, pos, stack, seen);
            &&& seen.subset_of(w.seen)
            &&& forall|i: int|
                0 <= i < stack.len() && in_prog(prog, #[trigger] stack[i]) ==> w.seen.contains(
                    stack[i],
                )
            &&& forall|x: int| #[trigger]
                w.ready.contains(x) <==> w.seen.contains(x) && !seen.contains(x) && is_ready(
                    prog,
                    x,
                )
            &&& forall|x: int| w.seen.contains(x) && !seen.contains(x) ==> in_prog(prog, x)
            &&& w.ready.no_duplicates()
            &&& closed_but(prog, len, pos, seen, stack) ==> closed_but(
                prog,
                len,
                pos,
                w.seen,
                Seq::empty(),
            )
        }),
    decreases room(prog.len() as int, seen), stack.len(),
{
    let w = walk(prog, len, pos, stack, seen);
    if stack.len() == 0 {
        if closed_but(prog, len, pos, seen, stack) {
            assert(stack =~= Seq::empty());
        }
    } else {
        let pc = stack[0];
        let rest = stack.drop_first();
        assert(stack =~= seq![pc] + rest);
        if !in_prog(prog, pc) || seen.contains(pc) {
            lemma_walk(prog, len, pos, rest, seen);
            assert forall|i: int| 0 <= i < stack.len() && in_prog(
                prog,
                #[trigger] stack[i],
            ) implies w.seen.contains(stack[i]) by {
                if i > 0 {
                    assert(rest[i - 1] == stack[i]);
                }
            }
            if closed_but(prog, len, pos, seen, stack) {
                assert forall|x: int, i: int|
                    #![trigger seen.contains(x), arms(prog, len, pos, x)[i]]
                    seen.contains(x) && 0 <= i < arms(prog, len, pos, x).len() && in_prog(
                        prog,
                        arms(prog, len, pos, x)[i],
                    ) implies seen.contains(arms(prog, len, pos, x)[i]) || rest.contains(
                    arms(prog, len, pos, x)[i],
                ) by {
                    let y = arms(prog, len, pos, x)[i];
                    if !seen.contains(y) {
                        let j = choose|j: int| 0 <= j < stack.len() && stack[j] == y;
                        assert(rest[j - 1] == y);
                    }
                }
            }
        } else {
            lemma_room(prog.len() as int, seen, pc);
            let next = arms(prog, len, pos, pc);
            let stack2 = next + rest;
            let seen2 = seen.insert(pc);
            lemma_walk(prog, len, pos, stack2, seen2);
            let w2 = walk(prog, len, pos, stack2, seen2);
            assert forall|i: int| 0 <= i < stack.len() && in_prog(
                prog,
                #[trigger] stack[i],
            ) implies w.seen.contains(stack[i]) by {
                if i > 0 {
                    assert(stack2[next.len() + i - 1] == stack[i]);
                }
            }
            if is_ready(prog, pc) {
                assert(w.ready == seq![pc] + w2.ready);
                assert(!w2.ready.contains(pc));
                assert forall|x: int| #[trigger]
                    w.ready.contains(x) <==> w.seen.contains(x) && !seen.contains(x) && is_ready(
                        prog,
                        x,
                    ) by {
                    if x == pc {
                        assert(w.ready[0] == pc);
                    }
                    if w2.ready.contains(x) {
                        let j = w2.ready.index_of(x);
                        assert(w.ready[j + 1] == x);
                    }
                    if w.ready.contains(x) && x != pc {
                        let j = w.ready.index_of(x);
                        assert(w2.ready[j - 1] == x);
                    }
                }
                assert forall|i: int, j: int|
                    0 <= i < w.ready.len() && 0 <= j < w.ready.len() && i != j implies w.ready[i]
                    != w.ready[j] by {
                    if i > 0 && j > 0 {
                        assert(w2.ready[i - 1] != w2.ready[j - 1]);
                    } else if i == 0 {
                        assert(w2.ready.contains(w2.ready[j - 1]));
                    } else {
                        assert(w2.ready.contains(w2.ready[i - 1]));
                    }
                }
            }
            if closed_but(prog, len, pos, seen, stack) {
                assert forall|x: int, i: int|
                    #![trigger seen2.contains(x), arms(prog, len, pos, x)[i]]
                    seen2.contains(x) && 0 <= i < arms(prog, len, pos, x).len() && in_prog(
                        prog,
                        arms(prog, len, pos, x)[i],
                    ) implies seen2.contains(arms(prog, len, pos, x)[i]) || stack2.contains(
                    arms(prog, len, pos, x)[i],
                ) by {
                    let y = arms(prog, len, pos, x)[i];
                    if x == pc {
                        assert(stack2[i] == y);
                    } else {
                        assert(seen.contains(x));
                        if !seen2.contains(y) {
                            let j = choose|j: int| 0 <= j < stack.len() && stack[j] == y;
                            assert(stack2[next.len() + j - 1] == y);
                        }
                    }
                }
            }
        }
    }
}

/// `list` without the elements of `gone`.
pub open spec fn without(list: Seq<int>, gone: Set<int>) -> Seq<int>
    decreases list.len(),
{
    if list.len() == 0 {
        Seq::empty()
    } else {
        let rest = without(list.drop_first(), gone);
        if gone.contains(list[0]) {
            rest
        } else {
            seq![list[0]] + rest
        }
    }
}

/// What two lists hold together.
pub proof fn lemma_contains_append(a: Seq<int>, b: Seq<int>, x: int)
    ensures
        (a + b).contains(x) <==> a.contains(x) || b.contains(x),
{
    if a.contains(x) {
        let i = a.index_of(x);
        assert((a + b)[i] == x);
    }
    if b.contains(x) {
        let i = b.index_of(x);
        assert((a + b)[a.len() + i] == x);
    }
    if (a + b).contains(x) {
        let i = (a + b).index_of(x);
        if i < a.len() {
            assert(a[i] == x);
        } else {
            assert(b[i - a.len()] == x);
        }
    }
}

/// What is left of a list.
pub proof fn lemma_without_contains(list: Seq<int>, gone: Set<int>, x: int)
    ensures
        without(list, gone).contains(x) <==> list.contains(x) && !gone.contains(x),
    decreases list.len(),
{
    if list.len() > 0 {
        let rest = list.drop_first();
        lemma_without_contains(rest, gone, x);
        assert(list =~= seq![list[0]] + rest);
        lemma_contains_append(seq![list[0]], rest, x);
        lemma_contains_append(seq![list[0]], without(rest, gone), x);
        assert(seq![list[0]].contains(x) <==> x == list[0]) by {
            if x == list[0] {
                assert(seq![list[0]][0] == x);
            }
        }
    }
}

/// A stack of counters already seen is skipped.
proof fn lemma_walk_skips(
    prog: Seq<Op>,
    len: int,
    pos: int,
    a: Seq<int>,
    b: Seq<int>,
    seen: Set<int>,
)
    requires
        forall|i: int| 0 <= i < a.len() ==> !in_prog(prog, #[trigger] a[i]) || seen.contains(a[i]),
    ensures
        walk(prog, len, pos, a + b, seen) == walk(prog, len, pos, b, seen),
    decreases a.len(),
{
    if a.len() == 0 {
        assert(a + b =~= b);
    } else {
        let rest = a.drop_first();
        assert((a + b).drop_first() =~= rest + b);
        assert(forall|i: int| 0 <= i < rest.len() ==> rest[i] == a[i + 1]);
        lemma_walk_skips(prog, len, pos, rest, b, seen);
    }
}

/// No step leads from a counter of `gone` to one that is neither in it nor in `seen`.
pub open spec fn closed_beside(
    prog: Seq<Op>,
    len: int,
    pos: int,
    gone: Set<int>,
    seen: Set<int>,
) -> bool {
    forall|x: int, i: int|
        #![trigger gone.contains(x), arms(prog, len, pos, x)[i]]
        gone.contains(x) && 0 <= i < arms(prog, len, pos, x).len() && in_prog(
            prog,
            arms(prog, len, pos, x)[i],
        ) ==> gone.contains(arms(prog, len, pos, x)[i]) || seen.contains(
            arms(prog, len, pos, x)[i],
        )
}

/// A walk that leaves out a closed set of counters finds what the walk without it
/// finds, less the ready instructions of that set.
pub proof fn lemma_walk_without(
    prog: Seq<Op>,
    len: int,
    pos: int,
    stack: Seq<int>,
    seen: Set<int>,
    gone: Set<int>,
)
    requires
        closed_beside(prog, len, pos, gone, seen),
    ensures
        ({
            let w = walk(prog, len, pos, stack, seen);
            let less = walk(prog, len, pos, stack, seen.union(gone));
            less.ready == without(w.ready, gone) && less.seen == w.seen.union(gone)
        }),
    decreases room(prog.len() as int, seen), stack.len(),
{
    let w = walk(prog, len, pos, stack, seen);
    let less = walk(prog, len, pos, stack, seen.union(gone));
    if stack.len() > 0 {
        let pc = stack[0];
        let rest = stack.drop_first();
        if !in_prog(prog, pc) || seen.contains(pc) {
            lemma_walk_without(prog, len, pos, rest, seen, gone);
        } else {
            lemma_room(prog.len() as int, seen, pc);
            let next = arms(prog, len, pos, pc);
            lemma_walk_without(prog, len, pos, next + rest, seen.insert(pc), gone);
            let w2 = walk(prog, len, pos, next + rest, seen.insert(pc));
            if is_ready(prog, pc) {
                assert(w.ready == seq![pc] + w2.ready);
                assert(w.ready.drop_first() =~= w2.ready);
            }
            if gone.contains(pc) {
                assert(seen.insert(pc).union(gone) =~= seen.union(gone));
                assert forall|i: int| 0 <= i < next.len() implies !in_prog(prog, #[trigger] next[i])
                    || seen.union(gone).contains(next[i]) by {
                    assert(gone.contains(pc));
                    assert(arms(prog, len, pos, pc)[i] == next[i]);
                }
                lemma_walk_skips(prog, len, pos, next, rest, seen.union(gone));
            } else {
                assert(seen.insert(pc).union(gone) =~= seen.union(gone).insert(pc));
            }
        }
    }
}

/// No instruction of `prog` depends on the position.
pub open spec fn no_asserts(prog: Seq<Op>) -> bool {
    forall|pc: int|
        0 <= pc < prog.len() ==> !(#[trigger] prog[pc] is StartAssert) && !(prog[pc] is EndAssert)
}

/// A walk over such a program is the same at every position.
pub proof fn lemma_walk_anywhere(prog: Seq<Op>, len: int, pos: int, stack: Seq<int>, seen: Set<int>)
    requires
        no_asserts(prog),
    ensures
        walk(prog, len, pos, stack, seen) == walk(prog, 0, 0, stack, seen),
    decreases room(prog.len() as int, seen), stack.len(),
{
    if stack.len() > 0 {
        let pc = stack[0];
        let rest = stack.drop_first();
        if !in_prog(prog, pc) || seen.contains(pc) {
            lemma_walk_anywhere(prog, len, pos, rest, seen);
        } else {
            lemma_room(prog.len() as int, seen, pc);
            lemma_walk_anywhere(
                prog,
                len,
                pos,
                arms(prog, len, pos, pc) + rest,
                seen.insert(pc),
            );
            assert(arms(prog, len, pos, pc) == arms(prog, 0, 0, pc));
        }
    }
}

// ---------------------------------------------------------------------------
// Searches.
// ---------------------------------------------------------------------------

/// A search over two stacks is the search over the first and, if that fails, over
/// the second.
pub proof fn lemma_search_append(
    prog: Seq<Op>,
    input: Seq<u8>,
    a: Seq<(int, int)>,
    b: Seq<(int, int)>,
    seen: Set<(int, int)>,
)
    ensures
        search(prog, input, a + b, seen) == (if search(prog, input, a, seen).0 is Some {
            search(prog, input, a, seen)
        } else {
            search(prog, input, b, search(prog, input, a, seen).1)
        }),
    decreases space(prog.len() as int, input.len() as int + 1, seen), a.len(),
{
    if a.len() == 0 {
        assert(a + b =~= b);
    } else {
        let s = a[0];
        let rest = a.drop_first();
        assert((a + b).drop_first() =~= rest + b);
        if !in_space(prog, input, s) || seen.contains(s) {
            lemma_search_append(prog, input, rest, b, seen);
        } else if prog[s.0] is Match {
        } else {
            lemma_space(prog.len() as int, input.len() as int + 1, seen, s);
            let next = moves(prog, input, s);
            assert(next + (rest + b) =~= (next + rest) + b);
            lemma_search_append(prog, input, next + rest, b, seen.insert(s));
        }
    }
}

/// Every state of `stack` is at position `pos` or later.
pub open spec fn all_from(stack: Seq<(int, int)>, pos: int) -> bool {
    forall|i: int| 0 <= i < stack.len() ==> (#[trigger] stack[i]).1 >= pos
}

/// No state of `seen` accepts, and from none of them does a move lead out of `seen`,
/// but to what is still on the stack.
pub open spec fn dead_but(
    prog: Seq<Op>,
    input: Seq<u8>,
    seen: Set<(int, int)>,
    stack: Seq<(int, int)>,
) -> bool {
    &&& forall|s: (int, int)| #[trigger] seen.contains(s) ==> in_space(prog, input, s)
    &&& forall|s: (int, int)| #[trigger] seen.contains(s) ==> !(prog[s.0] is Match)
    &&& forall|s: (int, int), i: int|
        #![trigger seen.contains(s), moves(prog, input, s)[i]]
        seen.contains(s) && 0 <= i < moves(prog, input, s).len() && in_space(
            prog,
            input,
            moves(prog, input, s)[i],
        ) ==> seen.contains(moves(prog, input, s)[i]) || stack.contains(
            moves(prog, input, s)[i],
        )
}

/// No accepting state can be reached from `seen`.
pub open spec fn dead(prog: Seq<Op>, input: Seq<u8>, seen: Set<(int, int)>) -> bool {
    dead_but(prog, input, seen, Seq::empty())
}

/// A move never goes back in the input.
proof fn lemma_moves_from(prog: Seq<Op>, input: Seq<u8>, s: (int, int))
    ensures
        all_from(moves(prog, input, s), s.1),
{
}

/// A search enters no state before the first position of its stack.
pub proof fn lemma_search_grows(
    prog: Seq<Op>,
    input: Seq<u8>,
    stack: Seq<(int, int)>,
    seen: Set<(int, int)>,
    pos: int,
)
    requires
        all_from(stack, pos),
    ensures
        seen.subset_of(search(prog, input, stack, seen).1),
        forall|s: (int, int)| #[trigger]
            search(prog, input, stack, seen).1.contains(s) && !seen.contains(s) ==> s.1 >= pos
                && in_space(prog, input, s),
        search(prog, input, stack, seen).0 is Some ==> pos <= search(prog, input, stack, seen).0->0
            <= input.len(),
    decreases space(prog.len() as int, input.len() as int + 1, seen), stack.len(),
{
    if stack.len() > 0 {
        let s = stack[0];
        let rest = stack.drop_first();
        assert(all_from(rest, pos));
        if !in_space(prog, input, s) || seen.contains(s) {
            lemma_search_grows(prog, input, rest, seen, pos);
        } else if prog[s.0] is Match {
        } else {
            lemma_space(prog.len() as int, input.len() as int + 1, seen, s);
            lemma_moves_from(prog, input, s);
            lemma_search_grows(prog, input, moves(prog, input, s) + rest, seen.insert(s), pos);
        }
    }
}

/// What a failed search has entered is dead.
pub proof fn lemma_search_fails(
    prog: Seq<Op>,
    input: Seq<u8>,
    stack: Seq<(int, int)>,
    seen: Set<(int, int)>,
)
    requires
        search(prog, input, stack, seen).0 is None,
        dead_but(prog, input, seen, stack),
    ensures
        dead(prog, input, search(prog, input, stack, seen).1),
        forall|i: int|
            0 <= i < stack.len() && in_space(prog, input, #[trigger] stack[i]) ==> search(
                prog,
                input,
                stack,
                seen,
            ).1.contains(stack[i]),
        seen.subset_of(search(prog, input, stack, seen).1),
    decreases space(prog.len() as int, input.len() as int + 1, seen), stack.len(),
{
    let out = search(prog, input, stack, seen).1;
    if stack.len() == 0 {
        assert(stack =~= Seq::empty());
    } else {
        let s = stack[0];
        let rest = stack.drop_first();
        assert(stack =~= seq![s] + rest);
        if !in_space(prog, input, s) || seen.contains(s) {
            assert(dead_but(prog, input, seen, rest)) by {
                assert forall|x: (int, int), i: int|
                    #![trigger seen.contains(x), moves(prog, input, x)[i]]
                    seen.contains(x) && 0 <= i < moves(prog, input, x).len() && in_space(
                        prog,
                        input,
                        moves(prog, input, x)[i],
                    ) implies seen.contains(moves(prog, input, x)[i]) || rest.contains(
                    moves(prog, input, x)[i],
                ) by {
                    let y = moves(prog, input, x)[i];
                    if !seen.contains(y) {
                        let j = choose|j: int| 0 <= j < stack.len() && stack[j] == y;
                        assert(rest[j - 1] == y);
                    }
                }
            }
            lemma_search_fails(prog, input, rest, seen);
            assert forall|i: int| 0 <= i < stack.len() && in_space(
                prog,
                input,
                #[trigger] stack[i],
            ) implies out.contains(stack[i]) by {
                if i > 0 {
                    assert(rest[i - 1] == stack[i]);
                }
            }
        } else {
            lemma_space(prog.len() as int, input.len() as int + 1, seen, s);
            let next = moves(prog, input, s);
            let stack2 = next + rest;
            let seen2 = seen.insert(s);
            assert(dead_but(prog, input, seen2, stack2)) by {
                assert forall|x: (int, int), i: int|
                    #![trigger seen2.contains(x), moves(prog, input, x)[i]]
                    seen2.contains(x) && 0 <= i < moves(prog, input, x).len() && in_space(
                        prog,
                        input,
                        moves(prog, input, x)[i],
                    ) implies seen2.contains(moves(prog, input, x)[i]) || stack2.contains(
                    moves(prog, input, x)[i],
                ) by {
                    let y = moves(prog, input, x)[i];
                    if x == s {
                        assert(stack2[i] == y);
                    } else {
                        assert(seen.contains(x));
                        if !seen2.contains(y) {
                            let j = choose|j: int| 0 <= j < stack.len() && stack[j] == y;
                            assert(stack2[next.len() + j - 1] == y);
                        }
                    }
                }
            }
            lemma_search_fails(prog, input, stack2, seen2);
            assert forall|i: int| 0 <= i < stack.len() && in_space(
                prog,
                input,
                #[trigger] stack[i],
            ) implies out.contains(stack[i]) by {
                if i > 0 {
                    assert(stack2[next.len() + i - 1] == stack[i]);
                }
            }
        }
    }
}

/// A stack of states already seen is skipped.
proof fn lemma_search_skips(
    prog: Seq<Op>,
    input: Seq<u8>,
    a: Seq<(int, int)>,
    b: Seq<(int, int)>,
    seen: Set<(int, int)>,
)
    requires
        forall|i: int|
            0 <= i < a.len() ==> !in_space(prog, input, #[trigger] a[i]) || seen.contains(a[i]),
    ensures
        search(prog, input, a + b, seen) == search(prog, input, b, seen),
    decreases a.len(),
{
    if a.len() == 0 {
        assert(a + b =~= b);
    } else {
        let rest = a.drop_first();
        assert((a + b).drop_first() =~= rest + b);
        assert(forall|i: int| 0 <= i < rest.len() ==> rest[i] == a[i + 1]);
        lemma_search_skips(prog, input, rest, b, seen);
    }
}

/// It makes no difference to the outcome of a search whether it enters dead states.
pub proof fn lemma_search_ignores_dead(
    prog: Seq<Op>,
    input: Seq<u8>,
    stack: Seq<(int, int)>,
    seen: Set<(int, int)>,
    gone: Set<(int, int)>,
)
    requires
        dead(prog, input, gone),
    ensures
        search(prog, input, stack, seen).0 == search(prog, input, stack, seen.union(gone)).0,
    decreases space(prog.len() as int, input.len() as int + 1, seen), stack.len(),
{
    if stack.len() > 0 {
        let s = stack[0];
        let rest = stack.drop_first();
        if !in_space(prog, input, s) || seen.contains(s) {
            lemma_search_ignores_dead(prog, input, rest, seen, gone);
        } else if prog[s.0] is Match {
        } else {
            lemma_space(prog.len() as int, input.len() as int + 1, seen, s);
            let next = moves(prog, input, s);
            lemma_search_ignores_dead(prog, input, next + rest, seen.insert(s), gone);
            if gone.contains(s) {
                assert(seen.insert(s).union(gone) =~= seen.union(gone));
                assert forall|i: int| 0 <= i < next.len() implies !in_space(
                    prog,
                    input,
                    #[trigger] next[i],
                ) || seen.union(gone).contains(next[i]) by {
                    assert(gone.contains(s));
                    assert(moves(prog, input, s)[i] == next[i]);
                }
                lemma_search_skips(prog, input, next, rest, seen.union(gone));
            } else {
                assert(seen.insert(s).union(gone) =~= seen.union(gone).insert(s));
            }
        }
    }
}

/// States before the first position of the stack make no difference.
pub proof fn lemma_search_ignores_past(
    prog: Seq<Op>,
    input: Seq<u8>,
    stack: Seq<(int, int)>,
    seen: Set<(int, int)>,
    past: Set<(int, int)>,
    pos: int,
)
    requires
        all_from(stack, pos),
        forall|s: (int, int)| #[trigger] past.contains(s) ==> s.1 < pos,
    ensures
        search(prog, input, stack, seen.union(past)).0 == search(prog, input, stack, seen).0,
        search(prog, input, stack, seen.union(past)).1 == search(prog, input, stack, seen).1.union(
            past,
        ),
    decreases space(prog.len() as int, input.len() as int + 1, seen), stack.len(),
{
    if stack.len() > 0 {
        let s = stack[0];
        let rest = stack.drop_first();
        assert(all_from(rest, pos));
        if !in_space(prog, input, s) || seen.contains(s) {
            lemma_search_ignores_past(prog, input, rest, seen, past, pos);
        } else {
            assert(!past.contains(s));
            assert(seen.insert(s).union(past) =~= seen.union(past).insert(s));
            if !(prog[s.0] is Match) {
                lemma_space(prog.len() as int, input.len() as int + 1, seen, s);
                lemma_moves_from(prog, input, s);
                lemma_search_ignores_past(
                    prog,
                    input,
                    moves(prog, input, s) + rest,
                    seen.insert(s),
                    past,
                    pos,
                );
            }
        }
    }
}

/// What the first of two searches finds or else the second: the outcome of a search
/// from two stacks.
pub proof fn lemma_search_or(
    prog: Seq<Op>,
    input: Seq<u8>,
    a: Seq<(int, int)>,
    b: Seq<(int, int)>,
)
    ensures
        search(prog, input, a + b, Set::empty()).0 == (if search(
            prog,
            input,
            a,
            Set::empty(),
        ).0 is Some {
            search(prog, input, a, Set::empty()).0
        } else {
            search(prog, input, b, Set::empty()).0
        }),
{
    lemma_search_append(prog, input, a, b, Set::empty());
    if search(prog, input, a, Set::empty()).0 is None {
        lemma_search_fails(prog, input, a, Set::empty());
        let gone = search(prog, input, a, Set::empty()).1;
        lemma_search_ignores_dead(prog, input, b, Set::empty(), gone);
        assert(Set::empty().union(gone) =~= gone);
    }
}

// ---------------------------------------------------------------------------
// Searching one position at a time.
// ---------------------------------------------------------------------------

/// The end of the preferred match that goes on from the ready instruction `pc` at
/// position `pos`.
pub open spec fn ready_end(prog: Seq<Op>, input: Seq<u8>, pos: int, pc: int) -> Option<int> {
    match prog[pc] {
        Op::Match => Some(pos),
        Op::Byte(set) => if pos < input.len() && set.contains(input[pos]) {
            preferred_from(prog, input, pc + 1, pos + 1)
        } else {
            None
        },
        _ => None,
    }
}

/// The first match that goes on from one of the ready instructions `pcs`.
pub open spec fn first_end(prog: Seq<Op>, input: Seq<u8>, pos: int, pcs: Seq<int>) -> Option<int>
    decreases pcs.len(),
{
    if pcs.len() == 0 {
        None
    } else {
        let end = ready_end(prog, input, pos, pcs[0]);
        if end is Some {
            end
        } else {
            first_end(prog, input, pos, pcs.drop_first())
        }
    }
}

pub proof fn lemma_first_end_append(
    prog: Seq<Op>,
    input: Seq<u8>,
    pos: int,
    a: Seq<int>,
    b: Seq<int>,
)
    ensures
        first_end(prog, input, pos, a + b) == (if first_end(prog, input, pos, a) is Some {
            first_end(prog, input, pos, a)
        } else {
            first_end(prog, input, pos, b)
        }),
    decreases a.len(),
{
    if a.len() == 0 {
        assert(a + b =~= b);
    } else {
        assert((a + b).drop_first() =~= a.drop_first() + b);
        lemma_first_end_append(prog, input, pos, a.drop_first(), b);
    }
}

/// The counters seen at position `pos`.
pub open spec fn seen_at(seen: Set<(int, int)>, pos: int) -> Set<int> {
    Set::new(|pc: int| seen.contains((pc, pos)))
}

/// The states seen after position `pos`.
pub open spec fn seen_after(seen: Set<(int, int)>, pos: int) -> Set<(int, int)> {
    Set::new(|s: (int, int)| seen.contains(s) && s.1 > pos)
}

/// The states seen at or before position `pos`.
pub open spec fn seen_until(seen: Set<(int, int)>, pos: int) -> Set<(int, int)> {
    Set::new(|s: (int, int)| seen.contains(s) && s.1 <= pos)
}

/// A search that goes one byte on from `pos`, with nothing but dead states seen after
/// `pos`, finds what a fresh search finds and leaves nothing but dead states.
proof fn lemma_search_later(
    prog: Seq<Op>,
    input: Seq<u8>,
    stack: Seq<(int, int)>,
    seen: Set<(int, int)>,
    pos: int,
)
    requires
        all_from(stack, pos + 1),
        dead(prog, input, seen_after(seen, pos)),
    ensures
        search(prog, input, stack, seen).0 == search(prog, input, stack, Set::empty()).0,
        search(prog, input, stack, seen).0 is None ==> {
            let out = search(prog, input, stack, seen).1;
            &&& dead(prog, input, seen_after(out, pos))
            &&& seen_at(out, pos) == seen_at(seen, pos)
            &&& seen_until(out, pos) == seen_until(seen, pos)
        },
{
    let past = seen_until(seen, pos);
    let gone = seen_after(seen, pos);
    assert(gone.union(past) =~= seen);
    lemma_search_ignores_past(prog, input, stack, gone, past, pos + 1);
    lemma_search_ignores_dead(prog, input, stack, Set::empty(), gone);
    assert(Set::empty().union(gone) =~= gone);
    if search(prog, input, stack, seen).0 is None {
        assert(dead_but(prog, input, gone, stack));
        lemma_search_fails(prog, input, stack, gone);
        lemma_search_grows(prog, input, stack, gone, pos + 1);
        let out = search(prog, input, stack, seen).1;
        assert(seen_after(out, pos) =~= search(prog, input, stack, gone).1);
        assert(seen_at(out, pos) =~= seen_at(seen, pos));
        assert(seen_until(out, pos) =~= seen_until(seen, pos));
    }
}

/// A search from counters at one position is a walk at that position, whose ready
/// instructions are then tried in order.
pub proof fn lemma_search_by_walk(
    prog: Seq<Op>,
    input: Seq<u8>,
    pos: int,
    pcs: Seq<int>,
    seen: Set<(int, int)>,
)
    requires
        0 <= pos <= input.len(),
        dead(prog, input, seen_after(seen, pos)),
    ensures
        search(prog, input, at(pcs, pos), seen).0 == first_end(
            prog,
            input,
            pos,
            walk(prog, input.len() as int, pos, pcs, seen_at(seen, pos)).ready,
        ),
    decreases space(prog.len() as int, input.len() as int + 1, seen), pcs.len(),
{
    let len = input.len() as int;
    let here = seen_at(seen, pos);
    let w = walk(prog, len, pos, pcs, here);
    if pcs.len() == 0 {
        assert(at(pcs, pos).len() == 0);
    } else {
        let pc = pcs[0];
        let s = (pc, pos);
        let rest = pcs.drop_first();
        assert(at(pcs, pos).drop_first() =~= at(rest, pos));
        if !in_prog(prog, pc) || here.contains(pc) {
            lemma_search_by_walk(prog, input, pos, rest, seen);
        } else if prog[pc] is Match {
            assert(w.ready[0] == pc);
        } else {
            lemma_space(prog.len() as int, len + 1, seen, s);
            let seen2 = seen.insert(s);
            assert(seen_at(seen2, pos) =~= here.insert(pc));
            assert(seen_after(seen2, pos) =~= seen_after(seen, pos));
            let next = arms(prog, len, pos, pc);
            if prog[pc] is Byte {
                assert(next + rest =~= rest);
                let w2 = walk(prog, len, pos, rest, here.insert(pc));
                assert(w.ready == seq![pc] + w2.ready);
                assert(w.ready.drop_first() =~= w2.ready);
                let m = moves(prog, input, s);
                if m.len() == 0 {
                    assert(m + at(rest, pos) =~= at(rest, pos));
                    lemma_search_by_walk(prog, input, pos, rest, seen2);
                } else {
                    lemma_search_append(prog, input, m, at(rest, pos), seen2);
                    lemma_search_later(prog, input, m, seen2, pos);
                    assert(m =~= seq![(pc + 1, pos + 1)]);
                    let out = search(prog, input, m, seen2);
                    if out.0 is None {
                        lemma_search_grows(prog, input, m, seen2, pos + 1);
                        lemma_space_shrinks(prog.len() as int, len + 1, seen2, out.1);
                        lemma_search_by_walk(prog, input, pos, rest, out.1);
                    }
                }
            } else {
                assert(moves(prog, input, s) + at(rest, pos) =~= at(next + rest, pos));
                lemma_search_by_walk(prog, input, pos, next + rest, seen2);
            }
        }
    }
}

proof fn lemma_space_shrinks(n: int, m: int, a: Set<(int, int)>, b: Set<(int, int)>)
    requires
        a.subset_of(b),
    ensures
        space(n, m, b) <= space(n, m, a),
{
    lemma_grid_finite(n, m);
    assert(grid(n, m).difference(b).subset_of(grid(n, m).difference(a)));
    lemma_len_subset(grid(n, m).difference(b), grid(n, m).difference(a));
}

/// One more counter after `pcs`: if nothing is found from `pcs`, what is found is what
/// the new counter prefers, though its walk leaves out what the others have seen.
pub proof fn lemma_walk_one_more(prog: Seq<Op>, input: Seq<u8>, pos: int, pcs: Seq<int>, pc: int)
    requires
        0 <= pos <= input.len(),
        first_end(
            prog,
            input,
            pos,
            walk(prog, input.len() as int, pos, pcs, Set::empty()).ready,
        ) is None,
    ensures
        ({
            let w = walk(prog, input.len() as int, pos, pcs, Set::empty());
            let more = walk(prog, input.len() as int, pos, seq![pc], w.seen);
            first_end(prog, input, pos, more.ready) == preferred_from(prog, input, pc, pos)
        }),
{
    let len = input.len() as int;
    let none: Set<(int, int)> = Set::empty();
    assert(seen_after(none, pos) =~= none);
    assert(seen_at(none, pos) =~= Set::empty());
    let w = walk(prog, len, pos, pcs, Set::empty());
    let more = walk(prog, len, pos, seq![pc], w.seen);
    lemma_walk_append(prog, len, pos, pcs, seq![pc], Set::empty());
    lemma_first_end_append(prog, input, pos, w.ready, more.ready);
    lemma_search_by_walk(prog, input, pos, pcs, none);
    lemma_search_by_walk(prog, input, pos, pcs + seq![pc], none);
    assert(at(pcs + seq![pc], pos) =~= at(pcs, pos) + seq![(pc, pos)]);
    lemma_search_or(prog, input, at(pcs, pos), seq![(pc, pos)]);
}

}
