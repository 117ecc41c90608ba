//! Which match is preferred.
//!
//! From a position a pattern can match in several ways. They are ordered: those by a branch
//! stand before those by a later branch, and those with one more repetition before the one
//! that stops. A program prefers the first.
use crate::agreement::{backtracking_prefers_alike, tried};
use crate::ast::{may_be_empty, Pattern};
use crate::automaton::{in_space, preferred_end, Op};
use crate::engine::{matchers_agree, matches_do_not_overlap, matches_of, Impl};
use crate::scan::{all_matches, ends_within, matches_are_found};
use crate::thompson::{compile, holds, lemma_compile, lemma_holds_parts, program_of, size};
use vstd::prelude::*;

verus! {

/// Whether every repetition in `pattern` takes up some of the input.
pub open spec fn repeats_take_input(pattern: Pattern) -> bool
    decreases pattern,
{
    match pattern {
        Pattern::Star(p) | Pattern::Plus(p) => !may_be_empty(*p) && repeats_take_input(*p),
        Pattern::Quest(p) | Pattern::Last(p) => repeats_take_input(*p),
        Pattern::Cat(a, b) | Pattern::Alt(a, b) => repeats_take_input(*a) && repeats_take_input(
            *b,
        ),
        _ => true,
    }
}

/// Where the matches of `pattern` from `s` end, the preferred one first.
pub open spec fn ends(pattern: Pattern, input: Seq<u8>, s: int) -> Seq<int>
    decreases pattern, 0int, 0int, 0int,
{
    match pattern {
        Pattern::Empty => seq![s],
        Pattern::Fail => Seq::empty(),
        Pattern::Class(set) => if 0 <= s < input.len() && set.contains(input[s]) {
            seq![s + 1]
        } else {
            Seq::empty()
        },
        Pattern::Start => if s == 0 {
            seq![s]
        } else {
            Seq::empty()
        },
        Pattern::End => if s == input.len() {
            seq![s]
        } else {
            Seq::empty()
        },
        Pattern::Cat(a, b) => ends_behind(ends(*a, input, s), *b, input),
        Pattern::Alt(a, b) => ends(*a, input, s) + ends(*b, input, s),
        Pattern::Last(p) => ends(*p, input, s),
        Pattern::Star(p) => repeats_behind(ends(*p, input, s), *p, input, s).push(s),
        Pattern::Plus(p) => repeats_behind(ends(*p, input, s), *p, input, s),
        Pattern::Quest(p) => ends(*p, input, s).push(s),
    }
}

/// Where the matches of `pattern` from the first of `ms` end, and then those from the others.
pub open spec fn ends_behind(ms: Seq<int>, pattern: Pattern, input: Seq<u8>) -> Seq<int>
    decreases pattern, 1int, 0int, ms.len(),
{
    if ms.len() == 0 {
        Seq::empty()
    } else {
        ends(pattern, input, ms[0]) + ends_behind(ms.drop_first(), pattern, input)
    }
}

/// Where repetitions of `pattern` end behind one that began at `s` and ended at the first of
/// `ms`, and then those behind the others: one more repetition is preferred to none.
pub open spec fn repeats_behind(
    ms: Seq<int>,
    pattern: Pattern,
    input: Seq<u8>,
    s: int,
) -> Seq<int>
    decreases pattern, 1int, input.len() - s, ms.len(),
{
    if ms.len() == 0 {
        Seq::empty()
    } else {
        let m = ms[0];
        let more = if s < m <= input.len() {
            repeats_behind(ends(pattern, input, m), pattern, input, m).push(m)
        } else {
            Seq::empty()
        };
        more + repeats_behind(ms.drop_first(), pattern, input, s)
    }
}

/// Where any number of repetitions of `pattern` from `s` end.
spec fn repeated_ends(pattern: Pattern, input: Seq<u8>, s: int) -> Seq<int> {
    repeats_behind(ends(pattern, input, s), pattern, input, s).push(s)
}

/// Whether `x` is in `list` only if `lo <= x <= hi`.
spec fn all_between(list: Seq<int>, lo: int, hi: int) -> bool {
    forall|i: int| 0 <= i < list.len() ==> lo <= #[trigger] list[i] <= hi
}

/// The least end of a match from `s`.
spec fn least(pattern: Pattern, s: int) -> int {
    if may_be_empty(pattern) {
        s
    } else {
        s + 1
    }
}

#[verifier::spinoff_prover]
#[verifier::rlimit(40)]
proof fn lemma_ends_between(pattern: Pattern, input: Seq<u8>, s: int)
    requires
        0 <= s <= input.len(),
    ensures
        all_between(ends(pattern, input, s), least(pattern, s), input.len() as int),
    decreases pattern, 0int, 0int, 0int,
{
    match pattern {
        Pattern::Cat(a, b) => {
            lemma_ends_between(*a, input, s);
            lemma_behind_between(ends(*a, input, s), *b, input, least(*a, s));
        },
        Pattern::Alt(a, b) => {
            lemma_ends_between(*a, input, s);
            lemma_ends_between(*b, input, s);
        },
        Pattern::Last(p) => {
            lemma_ends_between(*p, input, s);
        },
        Pattern::Star(p) | Pattern::Plus(p) => {
            lemma_ends_between(*p, input, s);
            lemma_repeats_between(ends(*p, input, s), *p, input, s, least(*p, s));
        },
        Pattern::Quest(p) => {
            lemma_ends_between(*p, input, s);
        },
        _ => {},
    }
}

proof fn lemma_behind_between(ms: Seq<int>, pattern: Pattern, input: Seq<u8>, lo: int)
    requires
        0 <= lo,
        all_between(ms, lo, input.len() as int),
    ensures
        all_between(ends_behind(ms, pattern, input), least(pattern, lo), input.len() as int),
    decreases pattern, 1int, 0int, ms.len(),
{
    if ms.len() > 0 {
        let rest = ms.drop_first();
        assert(all_between(rest, lo, input.len() as int)) by {
            assert(forall|i: int| 0 <= i < rest.len() ==> rest[i] == ms[i + 1]);
        }
        assert(lo <= ms[0] <= input.len());
        lemma_ends_between(pattern, input, ms[0]);
        lemma_behind_between(rest, pattern, input, lo);
    }
}

proof fn lemma_repeats_between(ms: Seq<int>, pattern: Pattern, input: Seq<u8>, s: int, lo: int)
    requires
        0 <= s <= input.len(),
        s <= lo,
        all_between(ms, lo, input.len() as int),
    ensures
        all_between(repeats_behind(ms, pattern, input, s), lo, input.len() as int),
    decreases pattern, 1int, input.len() - s, ms.len(),
{
    if ms.len() > 0 {
        let m = ms[0];
        let rest = ms.drop_first();
        assert(all_between(rest, lo, input.len() as int)) by {
            assert(forall|i: int| 0 <= i < rest.len() ==> rest[i] == ms[i + 1]);
        }
        assert(lo <= m <= input.len());
        if s < m {
            let more = ends(pattern, input, m);
            lemma_ends_between(pattern, input, m);
            lemma_repeats_between(more, pattern, input, m, m);
        }
        lemma_repeats_between(rest, pattern, input, s, lo);
    }
}

// ---------------------------------------------------------------------------
// The first of a list that leads on.
// ---------------------------------------------------------------------------

/// What the first of `ms` from which `f` comes to something comes to.
spec fn first_some(ms: Seq<int>, f: spec_fn(int) -> Option<int>) -> Option<int>
    decreases ms.len(),
{
    if ms.len() == 0 {
        None
    } else {
        either(f(ms[0]), first_some(ms.drop_first(), f))
    }
}

/// `a`, or `b` if there is none.
spec fn either(a: Option<int>, b: Option<int>) -> Option<int> {
    match a {
        Some(end) => Some(end),
        None => b,
    }
}

proof fn lemma_first_append(a: Seq<int>, b: Seq<int>, f: spec_fn(int) -> Option<int>)
    ensures
        first_some(a + b, f) == either(first_some(a, f), first_some(b, f)),
    decreases a.len(),
{
    if a.len() == 0 {
        assert(a + b =~= b);
    } else {
        assert((a + b).drop_first() =~= a.drop_first() + b);
        lemma_first_append(a.drop_first(), b, f);
    }
}

proof fn lemma_first_push(a: Seq<int>, m: int, f: spec_fn(int) -> Option<int>)
    ensures
        first_some(a.push(m), f) == either(first_some(a, f), f(m)),
{
    let one = seq![m];
    assert(a.push(m) =~= a + one);
    lemma_first_append(a, one, f);
    assert(one.drop_first() =~= Seq::empty());
    assert(first_some(one.drop_first(), f) is None);
}

proof fn lemma_first_behind(
    ms: Seq<int>,
    pattern: Pattern,
    input: Seq<u8>,
    f: spec_fn(int) -> Option<int>,
    h: spec_fn(int) -> Option<int>,
)
    requires
        forall|i: int|
            0 <= i < ms.len() ==> first_some(ends(pattern, input, #[trigger] ms[i]), f) == h(
                ms[i],
            ),
    ensures
        first_some(ends_behind(ms, pattern, input), f) == first_some(ms, h),
    decreases ms.len(),
{
    if ms.len() > 0 {
        let rest = ms.drop_first();
        assert forall|i: int| 0 <= i < rest.len() implies first_some(
            ends(pattern, input, #[trigger] rest[i]),
            f,
        ) == h(rest[i]) by {
            assert(rest[i] == ms[i + 1]);
        }
        lemma_first_behind(rest, pattern, input, f, h);
        lemma_first_append(
            ends(pattern, input, ms[0]),
            ends_behind(rest, pattern, input),
            f,
        );
    }
}

proof fn lemma_first_repeats(
    ms: Seq<int>,
    pattern: Pattern,
    input: Seq<u8>,
    s: int,
    f: spec_fn(int) -> Option<int>,
    h: spec_fn(int) -> Option<int>,
)
    requires
        forall|i: int|
            0 <= i < ms.len() ==> s < #[trigger] ms[i] <= input.len() && first_some(
                repeated_ends(pattern, input, ms[i]),
                f,
            ) == h(ms[i]),
    ensures
        first_some(repeats_behind(ms, pattern, input, s), f) == first_some(ms, h),
    decreases ms.len(),
{
    if ms.len() > 0 {
        let rest = ms.drop_first();
        assert forall|i: int| 0 <= i < rest.len() implies s < #[trigger] rest[i] <= input.len()
            && first_some(repeated_ends(pattern, input, rest[i]), f) == h(rest[i]) by {
            assert(rest[i] == ms[i + 1]);
        }
        lemma_first_repeats(rest, pattern, input, s, f, h);
        lemma_first_append(
            repeated_ends(pattern, input, ms[0]),
            repeats_behind(rest, pattern, input, s),
            f,
        );
        assert(repeats_behind(ms, pattern, input, s) == repeated_ends(pattern, input, ms[0])
            + repeats_behind(rest, pattern, input, s));
    }
}

proof fn lemma_first_same(
    ms: Seq<int>,
    f: spec_fn(int) -> Option<int>,
    h: spec_fn(int) -> Option<int>,
)
    requires
        forall|i: int| 0 <= i < ms.len() ==> f(#[trigger] ms[i]) == h(ms[i]),
    ensures
        first_some(ms, f) == first_some(ms, h),
    decreases ms.len(),
{
    if ms.len() > 0 {
        let rest = ms.drop_first();
        assert forall|i: int| 0 <= i < rest.len() implies f(#[trigger] rest[i]) == h(rest[i]) by {
            assert(rest[i] == ms[i + 1]);
        }
        lemma_first_same(rest, f, h);
    }
}

/// A loop that prefers another repetition to going on behind it comes to what the first of
/// the ends of the repetitions comes to.
proof fn lemma_repeated_first(
    pattern: Pattern,
    input: Seq<u8>,
    s: int,
    again: spec_fn(int) -> Option<int>,
    on: spec_fn(int) -> Option<int>,
)
    requires
        0 <= s <= input.len(),
        !may_be_empty(pattern),
        forall|x: int|
            0 <= x <= input.len() ==> #[trigger] again(x) == either(
                first_some(ends(pattern, input, x), again),
                on(x),
            ),
    ensures
        again(s) == first_some(repeated_ends(pattern, input, s), on),
    decreases input.len() - s,
{
    let ms = ends(pattern, input, s);
    lemma_ends_between(pattern, input, s);
    assert forall|i: int| 0 <= i < ms.len() implies s < #[trigger] ms[i] <= input.len()
        && first_some(repeated_ends(pattern, input, ms[i]), on) == again(ms[i]) by {
        assert(s < ms[i] <= input.len());
        lemma_repeated_first(pattern, input, ms[i], again, on);
    }
    lemma_first_repeats(ms, pattern, input, s, on, again);
    lemma_first_push(repeats_behind(ms, pattern, input, s), s, on);
}

// ---------------------------------------------------------------------------
// Ranks.
// ---------------------------------------------------------------------------

spec fn larger(a: int, b: int) -> int {
    if a < b {
        b
    } else {
        a
    }
}

/// The rank of the first instruction of `pattern`, if `end` is the rank of what is behind it.
spec fn start_rank(pattern: Pattern, end: int) -> int
    decreases pattern,
{
    match pattern {
        Pattern::Empty => end,
        Pattern::Fail | Pattern::Class(_) => 0,
        Pattern::Start | Pattern::End => end + 1,
        Pattern::Cat(a, b) => start_rank(*a, start_rank(*b, end)),
        Pattern::Alt(a, b) => larger(start_rank(*a, end + 1), start_rank(*b, end)) + 1,
        Pattern::Last(p) => start_rank(*p, end),
        Pattern::Star(p) => larger(start_rank(*p, 0), end) + 1,
        Pattern::Plus(p) => start_rank(*p, larger(start_rank(*p, 0), end) + 1),
        Pattern::Quest(p) => larger(start_rank(*p, end), end) + 1,
    }
}

/// The rank of the instruction at `pc`, if the code of `pattern` is at `b` and `end` is the
/// rank of what is behind it.
spec fn rank(pattern: Pattern, b: int, end: int, pc: int) -> int
    decreases pattern,
{
    match pattern {
        Pattern::Cat(x, y) => if pc < b + size(*x) {
            rank(*x, b, start_rank(*y, end), pc)
        } else {
            rank(*y, b + size(*x), end, pc)
        },
        Pattern::Alt(x, y) => if pc == b {
            start_rank(pattern, end)
        } else if pc < b + size(*x) + 1 {
            rank(*x, b + 1, end + 1, pc)
        } else if pc == b + size(*x) + 1 {
            end + 1
        } else {
            rank(*y, b + size(*x) + 2, end, pc)
        },
        Pattern::Last(p) => rank(*p, b, end, pc),
        Pattern::Star(p) => if pc == b {
            start_rank(pattern, end)
        } else if pc < b + size(*p) + 1 {
            rank(*p, b + 1, start_rank(pattern, end) + 1, pc)
        } else {
            start_rank(pattern, end) + 1
        },
        Pattern::Plus(p) => {
            let fork = larger(start_rank(*p, 0), end) + 1;
            if pc < b + size(*p) {
                rank(*p, b, fork, pc)
            } else {
                fork
            }
        },
        Pattern::Quest(p) => if pc == b {
            start_rank(pattern, end)
        } else {
            rank(*p, b + 1, end, pc)
        },
        _ => start_rank(pattern, end),
    }
}

proof fn lemma_start_rank(pattern: Pattern, b: int, end: int)
    requires
        0 <= end,
    ensures
        0 <= start_rank(pattern, end),
        size(pattern) == 0 ==> start_rank(pattern, end) == end,
        size(pattern) > 0 ==> rank(pattern, b, end, b) == start_rank(pattern, end),
    decreases pattern,
{
    match pattern {
        Pattern::Cat(x, y) => {
            lemma_start_rank(*y, b + size(*x), end);
            lemma_start_rank(*x, b, start_rank(*y, end));
        },
        Pattern::Alt(x, y) => {
            lemma_start_rank(*y, b + size(*x) + 2, end);
            lemma_start_rank(*x, b + 1, end + 1);
        },
        Pattern::Last(p) => {
            lemma_start_rank(*p, b, end);
        },
        Pattern::Star(p) => {
            lemma_start_rank(*p, b + 1, 0);
        },
        Pattern::Plus(p) => {
            lemma_start_rank(*p, b, 0);
            lemma_start_rank(*p, b, larger(start_rank(*p, 0), end) + 1);
        },
        Pattern::Quest(p) => {
            lemma_start_rank(*p, b + 1, end);
        },
        _ => {},
    }
}

/// What cannot be empty does not lead on to what is behind it without taking up input.
proof fn lemma_start_rank_alone(pattern: Pattern, a: int, b: int)
    requires
        !may_be_empty(pattern),
        repeats_take_input(pattern),
    ensures
        start_rank(pattern, a) == start_rank(pattern, b),
        size(pattern) > 0,
    decreases pattern,
{
    match pattern {
        Pattern::Cat(x, y) => {
            if may_be_empty(*x) {
                lemma_start_rank_alone(*y, a, b);
            } else {
                lemma_start_rank_alone(*x, start_rank(*y, a), start_rank(*y, b));
            }
        },
        Pattern::Alt(x, y) => {
            lemma_start_rank_alone(*x, a + 1, b + 1);
            lemma_start_rank_alone(*y, a, b);
        },
        Pattern::Last(p) => {
            lemma_start_rank_alone(*p, a, b);
        },
        Pattern::Plus(p) => {
            lemma_start_rank_alone(
                *p,
                larger(start_rank(*p, 0), a) + 1,
                larger(start_rank(*p, 0), b) + 1,
            );
        },
        _ => {},
    }
}

/// Whether the instruction at `pc` goes on without a byte only at lower ranks.
spec fn goes_down(op: Op, pc: int, r: spec_fn(int) -> int) -> bool {
    match op {
        Op::Byte(_) | Op::Match => true,
        Op::Jmp(t) => 0 <= r(t) < r(pc),
        Op::Split(x, y) => 0 <= r(x) < r(pc) && 0 <= r(y) < r(pc),
        Op::StartAssert | Op::EndAssert => 0 <= r(pc + 1) < r(pc),
    }
}

spec fn all_go_down(prog: Seq<Op>, r: spec_fn(int) -> int) -> bool {
    forall|pc: int| 0 <= pc < prog.len() ==> goes_down(#[trigger] prog[pc], pc, r)
}

/// Whether `r` gives the code of `pattern` at `b` its ranks.
spec fn ranks(pattern: Pattern, b: int, end: int, r: spec_fn(int) -> int) -> bool {
    &&& r(b + size(pattern)) == end
    &&& forall|pc: int|
        b <= pc < b + size(pattern) ==> #[trigger] r(pc) == rank(pattern, b, end, pc)
}

#[verifier::spinoff_prover]
#[verifier::rlimit(40)]
proof fn lemma_code_goes_down(
    prog: Seq<Op>,
    pattern: Pattern,
    b: int,
    end: int,
    r: spec_fn(int) -> int,
)
    requires
        holds(prog, pattern, b),
        repeats_take_input(pattern),
        0 <= end,
        ranks(pattern, b, end, r),
    ensures
        forall|pc: int|
            b <= pc < b + size(pattern) ==> goes_down(#[trigger] prog[pc], pc, r),
    decreases pattern,
{
    lemma_holds_parts(prog, pattern, b);
    lemma_start_rank(pattern, b, end);
    let n = size(pattern);
    match pattern {
        Pattern::Cat(x, y) => {
            lemma_start_rank(*y, b + size(*x), end);
            assert(r(b + size(*x)) == start_rank(*y, end));
            lemma_code_goes_down(prog, *x, b, start_rank(*y, end), r);
            lemma_code_goes_down(prog, *y, b + size(*x), end, r);
        },
        Pattern::Alt(x, y) => {
            let join = b + size(*x) + 1;
            lemma_start_rank(*x, b + 1, end + 1);
            lemma_start_rank(*y, join + 1, end);
            assert(r(join) == end + 1);
            assert(r(b) == start_rank(pattern, end));
            assert(r(b + 1) == start_rank(*x, end + 1));
            assert(r(join + 1) == start_rank(*y, end));
            lemma_code_goes_down(prog, *x, b + 1, end + 1, r);
            lemma_code_goes_down(prog, *y, join + 1, end, r);
        },
        Pattern::Last(p) => {
            lemma_code_goes_down(prog, *p, b, end, r);
        },
        Pattern::Star(p) => {
            let top = start_rank(pattern, end);
            lemma_start_rank(*p, b + 1, 0);
            lemma_start_rank(*p, b + 1, top + 1);
            lemma_start_rank_alone(*p, 0, top + 1);
            assert(r(b + size(*p) + 1) == top + 1);
            assert(r(b) == top);
            assert(r(b + 1) == start_rank(*p, top + 1));
            lemma_code_goes_down(prog, *p, b + 1, top + 1, r);
        },
        Pattern::Plus(p) => {
            let fork = larger(start_rank(*p, 0), end) + 1;
            lemma_start_rank(*p, b, 0);
            lemma_start_rank(*p, b, fork);
            lemma_start_rank_alone(*p, 0, fork);
            assert(r(b + size(*p)) == fork);
            assert(r(b) == start_rank(*p, fork));
            lemma_code_goes_down(prog, *p, b, fork, r);
        },
        Pattern::Quest(p) => {
            lemma_start_rank(*p, b + 1, end);
            assert(r(b) == start_rank(pattern, end));
            assert(r(b + 1) == start_rank(*p, end));
            lemma_code_goes_down(prog, *p, b + 1, end, r);
        },
        _ => {
            if n > 0 {
                assert(r(b) == start_rank(pattern, end));
            }
        },
    }
}

/// In a program that only goes down without a byte, the way that was taken does not matter.
proof fn lemma_tried_freely(
    prog: Seq<Op>,
    input: Seq<u8>,
    r: spec_fn(int) -> int,
    pc: int,
    pos: int,
    a: Set<int>,
    b: Set<int>,
)
    requires
        all_go_down(prog, r),
        forall|q: int| #[trigger] a.contains(q) ==> r(q) > r(pc),
        forall|q: int| #[trigger] b.contains(q) ==> r(q) > r(pc),
    ensures
        tried(prog, input, pc, pos, a) == tried(prog, input, pc, pos, b),
    decreases r(pc),
{
    if in_space(prog, input, (pc, pos)) {
        let x = a.insert(pc);
        let y = b.insert(pc);
        assert(goes_down(prog[pc], pc, r));
        match prog[pc] {
            Op::Split(first, second) => {
                lemma_tried_freely(prog, input, r, first, pos, x, y);
                lemma_tried_freely(prog, input, r, second, pos, x, y);
            },
            Op::Jmp(t) => {
                lemma_tried_freely(prog, input, r, t, pos, x, y);
            },
            Op::StartAssert | Op::EndAssert => {
                lemma_tried_freely(prog, input, r, pc + 1, pos, x, y);
            },
            _ => {},
        }
    }
}

/// The end to which the program comes from `pc`, at each position.
spec fn from(prog: Seq<Op>, input: Seq<u8>, pc: int) -> spec_fn(int) -> Option<int> {
    |pos: int| tried(prog, input, pc, pos, Set::empty())
}

/// A step of the program.
proof fn lemma_step(prog: Seq<Op>, input: Seq<u8>, r: spec_fn(int) -> int, pc: int, pos: int)
    requires
        all_go_down(prog, r),
        in_space(prog, input, (pc, pos)),
    ensures
        from(prog, input, pc)(pos) == (match prog[pc] {
            Op::Match => Some(pos),
            Op::Byte(set) => if pos < input.len() && set.contains(input[pos]) {
                from(prog, input, pc + 1)(pos + 1)
            } else {
                None
            },
            Op::Split(x, y) => either(from(prog, input, x)(pos), from(prog, input, y)(pos)),
            Op::Jmp(t) => from(prog, input, t)(pos),
            Op::StartAssert => if pos == 0 {
                from(prog, input, pc + 1)(pos)
            } else {
                None
            },
            Op::EndAssert => if pos == input.len() {
                from(prog, input, pc + 1)(pos)
            } else {
                None
            },
        }),
{
    let none = Set::<int>::empty();
    let on = none.insert(pc);
    assert(goes_down(prog[pc], pc, r));
    match prog[pc] {
        Op::Split(x, y) => {
            lemma_tried_freely(prog, input, r, x, pos, on, none);
            lemma_tried_freely(prog, input, r, y, pos, on, none);
        },
        Op::Jmp(t) => {
            lemma_tried_freely(prog, input, r, t, pos, on, none);
        },
        Op::StartAssert | Op::EndAssert => {
            lemma_tried_freely(prog, input, r, pc + 1, pos, on, none);
        },
        _ => {},
    }
}

/// The code of a pattern comes to what the first of its ends comes to.
#[verifier::spinoff_prover]
#[verifier::rlimit(40)]
proof fn lemma_code_prefers(
    prog: Seq<Op>,
    input: Seq<u8>,
    r: spec_fn(int) -> int,
    pattern: Pattern,
    b: int,
    s: int,
)
    requires
        all_go_down(prog, r),
        holds(prog, pattern, b),
        repeats_take_input(pattern),
        0 <= s <= input.len(),
    ensures
        from(prog, input, b)(s) == first_some(
            ends(pattern, input, s),
            from(prog, input, b + size(pattern)),
        ),
    decreases pattern,
{
    lemma_holds_parts(prog, pattern, b);
    let behind = from(prog, input, b + size(pattern));
    match pattern {
        Pattern::Cat(x, y) => {
            let mid = from(prog, input, b + size(*x));
            let ms = ends(*x, input, s);
            lemma_code_prefers(prog, input, r, *x, b, s);
            lemma_ends_between(*x, input, s);
            assert forall|i: int| 0 <= i < ms.len() implies first_some(
                ends(*y, input, #[trigger] ms[i]),
                behind,
            ) == mid(ms[i]) by {
                lemma_code_prefers(prog, input, r, *y, b + size(*x), ms[i]);
            }
            lemma_first_behind(ms, *y, input, behind, mid);
        },
        Pattern::Alt(x, y) => {
            let join = b + size(*x) + 1;
            let ms = ends(*x, input, s);
            lemma_step(prog, input, r, b, s);
            lemma_code_prefers(prog, input, r, *x, b + 1, s);
            lemma_code_prefers(prog, input, r, *y, join + 1, s);
            lemma_ends_between(*x, input, s);
            assert forall|i: int| 0 <= i < ms.len() implies from(prog, input, join)(
                #[trigger] ms[i],
            ) == behind(ms[i]) by {
                lemma_step(prog, input, r, join, ms[i]);
            }
            lemma_first_same(ms, from(prog, input, join), behind);
            lemma_first_append(ms, ends(*y, input, s), behind);
        },
        Pattern::Last(p) => {
            lemma_code_prefers(prog, input, r, *p, b, s);
        },
        Pattern::Star(p) => {
            let back = b + size(*p) + 1;
            let again = from(prog, input, b);
            assert forall|x: int| 0 <= x <= input.len() implies #[trigger] again(x) == either(
                first_some(ends(*p, input, x), again),
                behind(x),
            ) by {
                let ms = ends(*p, input, x);
                lemma_step(prog, input, r, b, x);
                lemma_code_prefers(prog, input, r, *p, b + 1, x);
                lemma_ends_between(*p, input, x);
                assert forall|i: int| 0 <= i < ms.len() implies from(prog, input, back)(
                    #[trigger] ms[i],
                ) == again(ms[i]) by {
                    lemma_step(prog, input, r, back, ms[i]);
                }
                lemma_first_same(ms, from(prog, input, back), again);
            }
            lemma_repeated_first(*p, input, s, again, behind);
        },
        Pattern::Plus(p) => {
            let again = from(prog, input, b + size(*p));
            assert forall|x: int| 0 <= x <= input.len() implies #[trigger] again(x) == either(
                first_some(ends(*p, input, x), again),
                behind(x),
            ) by {
                lemma_step(prog, input, r, b + size(*p), x);
                lemma_code_prefers(prog, input, r, *p, b, x);
            }
            let ms = ends(*p, input, s);
            lemma_code_prefers(prog, input, r, *p, b, s);
            lemma_ends_between(*p, input, s);
            assert forall|i: int| 0 <= i < ms.len() implies s < #[trigger] ms[i] <= input.len()
                && first_some(repeated_ends(*p, input, ms[i]), behind) == again(ms[i]) by {
                lemma_repeated_first(*p, input, ms[i], again, behind);
            }
            lemma_first_repeats(ms, *p, input, s, behind, again);
        },
        Pattern::Quest(p) => {
            lemma_step(prog, input, r, b, s);
            lemma_code_prefers(prog, input, r, *p, b + 1, s);
            lemma_first_push(ends(*p, input, s), s, behind);
        },
        Pattern::Empty => {
            lemma_first_push(Seq::empty(), s, behind);
            assert(Seq::<int>::empty().push(s) =~= seq![s]);
        },
        Pattern::Fail => {
            lemma_step(prog, input, r, b, s);
        },
        Pattern::Class(_) => {
            lemma_step(prog, input, r, b, s);
            lemma_first_push(Seq::empty(), s + 1, behind);
            assert(Seq::<int>::empty().push(s + 1) =~= seq![s + 1]);
        },
        Pattern::Start | Pattern::End => {
            lemma_step(prog, input, r, b, s);
            lemma_first_push(Seq::empty(), s, behind);
            assert(Seq::<int>::empty().push(s) =~= seq![s]);
        },
    }
}

/// A program prefers the first end: that of an earlier branch to that of a later one, and that
/// of more repetitions to that of fewer.
#[verifier::spinoff_prover]
#[verifier::rlimit(40)]
pub proof fn first_ends_are_preferred(pattern: Pattern, input: Seq<u8>, start: int)
    requires
        repeats_take_input(pattern),
        0 <= start <= input.len(),
    ensures
        preferred_end(program_of(pattern), input, start) == (if ends(
            pattern,
            input,
            start,
        ).len() == 0 {
            None
        } else {
            Some(ends(pattern, input, start)[0])
        }),
{
    let prog = program_of(pattern);
    let n = size(pattern) as int;
    let r = |pc: int| if pc == n { 0 } else { rank(pattern, 0, 0, pc) };
    let list = ends(pattern, input, start);
    let last = from(prog, input, n);
    lemma_compile(pattern, 0);
    assert(holds(prog, pattern, 0)) by {
        assert(forall|i: int| 0 <= i < n ==> prog[i] == #[trigger] compile(pattern, 0)[i]);
    }
    assert(prog[n] is Match);
    lemma_code_goes_down(prog, pattern, 0, 0, r);
    lemma_code_prefers(prog, input, r, pattern, 0, start);
    lemma_ends_between(pattern, input, start);
    backtracking_prefers_alike(prog, input, 0, start);
    if list.len() > 0 {
        lemma_step(prog, input, r, n, list[0]);
        assert(last(list[0]) == Some(list[0]));
    }
}

/// Every match that a matcher finds is the preferred one of those that start where it does.
#[verifier::spinoff_prover]
#[verifier::rlimit(40)]
pub proof fn found_matches_are_preferred(matcher: Impl, pattern: Pattern, input: Seq<u8>, i: int)
    requires
        repeats_take_input(pattern),
        0 <= i < matches_of(matcher, pattern, input).len(),
    ensures
        ({
            let (start, end) = matches_of(matcher, pattern, input)[i];
            &&& ends(pattern, input, start).len() > 0
            &&& ends(pattern, input, start)[0] == end
        }),
{
    let len = input.len() as int;
    let end_at = |start: int| preferred_end(program_of(pattern), input, start);
    let (start, end) = matches_of(matcher, pattern, input)[i];
    matches_do_not_overlap(matcher, pattern, input);
    matchers_agree(matcher, Impl::Thompson, pattern, input);
    assert(ends_within(end_at, len)) by {
        assert forall|x: int| 0 <= x <= len implies match #[trigger] end_at(x) {
            Some(e) => x <= e <= len,
            None => true,
        } by {
            first_ends_are_preferred(pattern, input, x);
            lemma_ends_between(pattern, input, x);
        }
    }
    matches_are_found(end_at, len);
    assert(all_matches(end_at, len)[i] == (start, end));
    assert(end_at(start) == Some(end));
    first_ends_are_preferred(pattern, input, start);
}

}
