//! Running all lines of a search in lockstep, one input byte at a time.
//!
//! A thread is a pair of a program counter and the position where its match began.
//! Threads are listed in order of priority.
use crate::automaton::{
    first_end, is_ready, lemma_search_grows, lemma_walk, lemma_walk_anywhere, lemma_walk_append,
    lemma_walk_one_more, lemma_walk_without, no_asserts, preferred_end, preferred_from, ready_end,
    walk, without, Op,
};
use crate::scan::leftmost;
use vstd::prelude::*;

verus! {

/// The counters of `threads`.
pub open spec fn counters(threads: Seq<(int, int)>) -> Seq<int> {
    threads.map_values(|t: (int, int)| t.0)
}

/// Threads at the counters `pcs`, all begun at `start`.
pub open spec fn begun(pcs: Seq<int>, start: int) -> Seq<(int, int)> {
    pcs.map_values(|pc: int| (pc, start))
}

/// The ready threads that come of some roots, and every counter entered.
#[verifier::ext_equal]
pub struct Closure {
    pub threads: Seq<(int, int)>,
    pub seen: Set<int>,
}

/// Close the threads `roots` over the instructions that consume nothing at `pos`, in
/// order, entering no counter twice.
pub open spec fn close(prog: Seq<Op>, len: int, pos: int, roots: Seq<(int, int)>) -> Closure
    decreases roots.len(),
{
    if roots.len() == 0 {
        Closure { threads: Seq::empty(), seen: Set::empty() }
    } else {
        let before = close(prog, len, pos, roots.drop_last());
        let w = walk(prog, len, pos, seq![roots.last().0], before.seen);
        Closure { threads: before.threads + begun(w.ready, roots.last().1), seen: w.seen }
    }
}

/// Closing threads is walking from their counters.
pub proof fn lemma_close_counters(prog: Seq<Op>, len: int, pos: int, roots: Seq<(int, int)>)
    ensures
        ({
            let c = close(prog, len, pos, roots);
            let w = walk(prog, len, pos, counters(roots), Set::empty());
            counters(c.threads) == w.ready && c.seen == w.seen
        }),
    decreases roots.len(),
{
    let c = close(prog, len, pos, roots);
    let w = walk(prog, len, pos, counters(roots), Set::empty());
    if roots.len() == 0 {
        assert(counters(c.threads) =~= w.ready);
    } else {
        let before = close(prog, len, pos, roots.drop_last());
        let last = roots.last().0;
        lemma_close_counters(prog, len, pos, roots.drop_last());
        assert(counters(roots) =~= counters(roots.drop_last()) + seq![last]);
        lemma_walk_append(prog, len, pos, counters(roots.drop_last()), seq![last], Set::empty());
        let more = walk(prog, len, pos, seq![last], before.seen);
        assert(counters(c.threads) =~= counters(before.threads) + more.ready);
    }
}

/// The ready threads of a closure stand at ready instructions, no two at the same one.
pub proof fn lemma_close_ready(prog: Seq<Op>, len: int, pos: int, roots: Seq<(int, int)>)
    ensures
        ({
            let c = close(prog, len, pos, roots);
            &&& forall|i: int|
                0 <= i < c.threads.len() ==> is_ready(
                    prog,
                    (#[trigger] c.threads[i]).0,
                )
            &&& counters(c.threads).no_duplicates()
        }),
{
    let c = close(prog, len, pos, roots);
    lemma_close_counters(prog, len, pos, roots);
    lemma_walk(prog, len, pos, counters(roots), Set::empty());
    assert forall|i: int| 0 <= i < c.threads.len() implies is_ready(
        prog,
        (#[trigger] c.threads[i]).0,
    ) by {
        assert(counters(c.threads)[i] == c.threads[i].0);
        assert(counters(c.threads).contains(c.threads[i].0));
    }
}

/// `a`, or else `b`.
pub open spec fn or_else(a: Option<(int, int)>, b: Option<(int, int)>) -> Option<(int, int)> {
    if a is Some {
        a
    } else {
        b
    }
}

/// A match that began at `start` and ends at `end`, if there is an end.
pub open spec fn since(start: int, end: Option<int>) -> Option<(int, int)> {
    match end {
        Some(e) => Some((start, e)),
        None => None,
    }
}

/// The match of the first ready thread from which there is one.
pub open spec fn best_of(prog: Seq<Op>, input: Seq<u8>, pos: int, threads: Seq<(int, int)>) -> Option<
    (int, int),
>
    decreases threads.len(),
{
    if threads.len() == 0 {
        None
    } else {
        or_else(
            since(threads[0].1, ready_end(prog, input, pos, threads[0].0)),
            best_of(prog, input, pos, threads.drop_first()),
        )
    }
}

/// The match of the first root from which there is one.
pub open spec fn best_root(prog: Seq<Op>, input: Seq<u8>, pos: int, roots: Seq<(int, int)>) -> Option<
    (int, int),
>
    decreases roots.len(),
{
    if roots.len() == 0 {
        None
    } else {
        or_else(
            best_root(prog, input, pos, roots.drop_last()),
            since(roots.last().1, preferred_from(prog, input, roots.last().0, pos)),
        )
    }
}

proof fn lemma_best_append(
    prog: Seq<Op>,
    input: Seq<u8>,
    pos: int,
    a: Seq<(int, int)>,
    b: Seq<(int, int)>,
)
    ensures
        best_of(prog, input, pos, a + b) == or_else(
            best_of(prog, input, pos, a),
            best_of(prog, input, pos, b),
        ),
    decreases a.len(),
{
    if a.len() == 0 {
        assert(a + b =~= b);
    } else {
        assert((a + b).drop_first() =~= a.drop_first() + b);
        lemma_best_append(prog, input, pos, a.drop_first(), b);
    }
}

/// There is a match from threads if and only if there is one from their counters.
proof fn lemma_best_counters(prog: Seq<Op>, input: Seq<u8>, pos: int, threads: Seq<(int, int)>)
    ensures
        best_of(prog, input, pos, threads) is Some <==> first_end(
            prog,
            input,
            pos,
            counters(threads),
        ) is Some,
    decreases threads.len(),
{
    if threads.len() > 0 {
        assert(counters(threads).drop_first() =~= counters(threads.drop_first()));
        lemma_best_counters(prog, input, pos, threads.drop_first());
    }
}

/// The match from threads that all began at `start`.
proof fn lemma_best_begun(prog: Seq<Op>, input: Seq<u8>, pos: int, pcs: Seq<int>, start: int)
    ensures
        best_of(prog, input, pos, begun(pcs, start)) == since(
            start,
            first_end(prog, input, pos, pcs),
        ),
    decreases pcs.len(),
{
    if pcs.len() > 0 {
        assert(begun(pcs, start).drop_first() =~= begun(pcs.drop_first(), start));
        lemma_best_begun(prog, input, pos, pcs.drop_first(), start);
    }
}

/// The best match of closed threads is that of their roots.
pub proof fn lemma_close_best(prog: Seq<Op>, input: Seq<u8>, pos: int, roots: Seq<(int, int)>)
    requires
        0 <= pos <= input.len(),
    ensures
        best_of(prog, input, pos, close(prog, input.len() as int, pos, roots).threads)
            == best_root(prog, input, pos, roots),
    decreases roots.len(),
{
    if roots.len() > 0 {
        let len = input.len() as int;
        let (pc, start) = roots.last();
        let first = roots.drop_last();
        let before = close(prog, len, pos, first);
        let more = walk(prog, len, pos, seq![pc], before.seen);
        lemma_close_best(prog, input, pos, first);
        lemma_close_counters(prog, len, pos, first);
        lemma_best_append(prog, input, pos, before.threads, begun(more.ready, start));
        lemma_best_begun(prog, input, pos, more.ready, start);
        lemma_best_counters(prog, input, pos, before.threads);
        if best_of(prog, input, pos, before.threads) is None {
            lemma_walk_one_more(prog, input, pos, counters(first), pc);
        }
    }
}

/// The threads that go on from `threads` over `byte`: none from a thread behind one that
/// accepts.
pub open spec fn step_roots(prog: Seq<Op>, threads: Seq<(int, int)>, byte: u8) -> Seq<(int, int)>
    decreases threads.len(),
{
    if threads.len() == 0 {
        Seq::empty()
    } else {
        let rest = step_roots(prog, threads.drop_first(), byte);
        match prog[threads[0].0] {
            Op::Match => Seq::empty(),
            Op::Byte(set) => if set.contains(byte) {
                seq![(threads[0].0 + 1, threads[0].1)] + rest
            } else {
                rest
            },
            _ => rest,
        }
    }
}

/// The first thread that accepts, and where it accepts.
pub open spec fn accepted(prog: Seq<Op>, threads: Seq<(int, int)>, pos: int) -> Option<(int, int)>
    decreases threads.len(),
{
    if threads.len() == 0 {
        None
    } else if prog[threads[0].0] is Match {
        Some((threads[0].1, pos))
    } else {
        accepted(prog, threads.drop_first(), pos)
    }
}

proof fn lemma_best_root_first(
    prog: Seq<Op>,
    input: Seq<u8>,
    pos: int,
    root: (int, int),
    rest: Seq<(int, int)>,
)
    ensures
        best_root(prog, input, pos, seq![root] + rest) == or_else(
            since(root.1, preferred_from(prog, input, root.0, pos)),
            best_root(prog, input, pos, rest),
        ),
    decreases rest.len(),
{
    let all = seq![root] + rest;
    if rest.len() == 0 {
        assert(all.drop_last() =~= Seq::<(int, int)>::empty());
        assert(best_root(prog, input, pos, all.drop_last()) is None);
        assert(all.last() == root);
    } else {
        assert(all.drop_last() =~= seq![root] + rest.drop_last());
        lemma_best_root_first(prog, input, pos, root, rest.drop_last());
    }
}

/// One step of the run: the best match from `threads` goes on over the next byte, or
/// else is accepted here.
pub proof fn lemma_step(prog: Seq<Op>, input: Seq<u8>, pos: int, threads: Seq<(int, int)>)
    requires
        0 <= pos <= input.len(),
    ensures
        best_of(prog, input, pos, threads) == or_else(
            if pos < input.len() {
                best_root(prog, input, pos + 1, step_roots(prog, threads, input[pos]))
            } else {
                None
            },
            accepted(prog, threads, pos),
        ),
    decreases threads.len(),
{
    if threads.len() > 0 {
        let (pc, start) = threads[0];
        let rest = threads.drop_first();
        lemma_step(prog, input, pos, rest);
        if pos < input.len() {
            match prog[pc] {
                Op::Byte(set) => {
                    if set.contains(input[pos]) {
                        lemma_best_root_first(
                            prog,
                            input,
                            pos + 1,
                            (pc + 1, start),
                            step_roots(prog, rest, input[pos]),
                        );
                    }
                },
                _ => {},
            }
        }
    }
}

/// A thread behind others of which none accepts.
pub proof fn lemma_step_more(
    prog: Seq<Op>,
    threads: Seq<(int, int)>,
    byte: u8,
    more: Seq<(int, int)>,
    pos: int,
)
    requires
        accepted(prog, threads, pos) is None,
    ensures
        step_roots(prog, threads + more, byte) == step_roots(prog, threads, byte) + step_roots(
            prog,
            more,
            byte,
        ),
        accepted(prog, threads + more, pos) == accepted(prog, more, pos),
    decreases threads.len(),
{
    if threads.len() == 0 {
        assert(threads + more =~= more);
        assert(step_roots(prog, threads, byte) + step_roots(prog, more, byte) =~= step_roots(
            prog,
            more,
            byte,
        ));
    } else {
        assert((threads + more).drop_first() =~= threads.drop_first() + more);
        lemma_step_more(prog, threads.drop_first(), byte, more, pos);
        assert(step_roots(prog, threads + more, byte) =~= step_roots(prog, threads, byte)
            + step_roots(prog, more, byte));
    }
}

/// Threads behind one that accepts make no difference.
pub proof fn lemma_step_cut(
    prog: Seq<Op>,
    threads: Seq<(int, int)>,
    byte: u8,
    more: Seq<(int, int)>,
    pos: int,
)
    requires
        accepted(prog, threads, pos) is Some,
    ensures
        step_roots(prog, threads + more, byte) == step_roots(prog, threads, byte),
        accepted(prog, threads + more, pos) == accepted(prog, threads, pos),
    decreases threads.len(),
{
    if threads.len() > 0 {
        assert((threads + more).drop_first() =~= threads.drop_first() + more);
        if !(prog[threads[0].0] is Match) {
            lemma_step_cut(prog, threads.drop_first(), byte, more, pos);
        }
    }
}

/// The match that `prog` finds in `input` from `scan` on: the leftmost one or, where it
/// must begin right at `scan`, the preferred one there.
pub open spec fn vm_find(prog: Seq<Op>, input: Seq<u8>, scan: int, unanchored: bool) -> Option<
    (int, int),
> {
    if scan > input.len() {
        None
    } else if unanchored {
        leftmost(|start: int| preferred_end(prog, input, start), input.len() as int, scan)
    } else {
        since(scan, preferred_end(prog, input, scan))
    }
}

/// What is found if no thread at `pos` leads to a match, and `best` is the best match
/// found before.
pub open spec fn fallback(
    prog: Seq<Op>,
    input: Seq<u8>,
    pos: int,
    unanchored: bool,
    best: Option<(int, int)>,
) -> Option<(int, int)> {
    if best is Some {
        best
    } else if unanchored {
        vm_find(prog, input, pos + 1, true)
    } else {
        None
    }
}

/// A run begins with one thread at `scan`.
pub proof fn lemma_run_begins(prog: Seq<Op>, input: Seq<u8>, scan: int, unanchored: bool)
    requires
        0 <= scan <= input.len(),
    ensures
        ({
            let roots = seq![(0int, scan)];
            vm_find(prog, input, scan, unanchored) == or_else(
                best_of(prog, input, scan, close(prog, input.len() as int, scan, roots).threads),
                fallback(prog, input, scan, unanchored, None),
            )
        }),
{
    let roots = seq![(0int, scan)];
    lemma_close_best(prog, input, scan, roots);
    assert(roots.drop_last() =~= Seq::<(int, int)>::empty());
    assert(best_root(prog, input, scan, roots.drop_last()) is None);
    assert(roots.last() == (0int, scan));
    if unanchored {
        let end_at = |start: int| preferred_end(prog, input, start);
        assert(leftmost(end_at, input.len() as int, scan) == match end_at(scan) {
            Some(end) => Some((scan, end)),
            None => leftmost(end_at, input.len() as int, scan + 1),
        });
    }
}

/// A run goes on over one byte. `best` is the best match found before this position; a
/// fresh thread is begun behind the others while there is none.
pub proof fn lemma_run_goes_on(
    prog: Seq<Op>,
    input: Seq<u8>,
    pos: int,
    unanchored: bool,
    threads: Seq<(int, int)>,
    best: Option<(int, int)>,
)
    requires
        0 <= pos < input.len(),
    ensures
        ({
            let now = or_else(accepted(prog, threads, pos), best);
            let on = step_roots(prog, threads, input[pos]);
            let roots = if unanchored && now is None {
                on.push((0, pos + 1))
            } else {
                on
            };
            or_else(
                best_of(prog, input, pos, threads),
                fallback(prog, input, pos, unanchored, best),
            ) == or_else(
                best_of(
                    prog,
                    input,
                    pos + 1,
                    close(prog, input.len() as int, pos + 1, roots).threads,
                ),
                fallback(prog, input, pos + 1, unanchored, now),
            )
        }),
{
    let now = or_else(accepted(prog, threads, pos), best);
    let on = step_roots(prog, threads, input[pos]);
    lemma_step(prog, input, pos, threads);
    if unanchored && now is None {
        let roots = on.push((0, pos + 1));
        lemma_close_best(prog, input, pos + 1, roots);
        assert(roots.drop_last() =~= on);
        let end_at = |start: int| preferred_end(prog, input, start);
        assert(leftmost(end_at, input.len() as int, pos + 1) == match end_at(pos + 1) {
            Some(end) => Some((pos + 1, end)),
            None => leftmost(end_at, input.len() as int, pos + 2),
        });
    } else {
        lemma_close_best(prog, input, pos + 1, on);
    }
}

/// A run ends at the end of the input.
pub proof fn lemma_run_ends(
    prog: Seq<Op>,
    input: Seq<u8>,
    unanchored: bool,
    threads: Seq<(int, int)>,
    best: Option<(int, int)>,
)
    ensures
        or_else(
            best_of(prog, input, input.len() as int, threads),
            fallback(prog, input, input.len() as int, unanchored, best),
        ) == or_else(accepted(prog, threads, input.len() as int), best),
{
    lemma_step(prog, input, input.len() as int, threads);
}

/// The leftmost match lies in the input, and does not begin before `scan`.
pub proof fn lemma_vm_find_valid(prog: Seq<Op>, input: Seq<u8>, scan: int)
    requires
        0 <= scan,
    ensures
        vm_find(prog, input, scan, true) matches Some((start, end)) ==> scan <= start <= end
            <= input.len(),
    decreases input.len() + 1 - scan,
{
    if scan <= input.len() {
        lemma_search_grows(prog, input, seq![(0int, scan)], Set::empty(), scan);
        lemma_vm_find_valid(prog, input, scan + 1);
        let end_at = |start: int| preferred_end(prog, input, start);
        assert(leftmost(end_at, input.len() as int, scan) == match end_at(scan) {
            Some(end) => Some((scan, end)),
            None => leftmost(end_at, input.len() as int, scan + 1),
        });
    }
}

/// Threads with their starts replaced.
pub open spec fn relabel(threads: Seq<(int, int)>, f: spec_fn(int) -> int) -> Seq<(int, int)> {
    threads.map_values(|t: (int, int)| (t.0, f(t.1)))
}

/// What threads come of roots does not depend on where they began.
pub proof fn lemma_close_relabel(
    prog: Seq<Op>,
    len: int,
    pos: int,
    roots: Seq<(int, int)>,
    f: spec_fn(int) -> int,
)
    ensures
        ({
            let c = close(prog, len, pos, roots);
            let d = close(prog, len, pos, relabel(roots, f));
            d.threads == relabel(c.threads, f) && d.seen == c.seen
        }),
    decreases roots.len(),
{
    let c = close(prog, len, pos, roots);
    let d = close(prog, len, pos, relabel(roots, f));
    if roots.len() > 0 {
        assert(relabel(roots, f).drop_last() =~= relabel(roots.drop_last(), f));
        lemma_close_relabel(prog, len, pos, roots.drop_last(), f);
        assert(relabel(roots, f).last() == (roots.last().0, f(roots.last().1)));
    }
    assert(d.threads =~= relabel(c.threads, f));
}

pub proof fn lemma_step_relabel(
    prog: Seq<Op>,
    threads: Seq<(int, int)>,
    byte: u8,
    f: spec_fn(int) -> int,
)
    ensures
        step_roots(prog, relabel(threads, f), byte) == relabel(
            step_roots(prog, threads, byte),
            f,
        ),
    decreases threads.len(),
{
    if threads.len() > 0 {
        assert(relabel(threads, f).drop_first() =~= relabel(threads.drop_first(), f));
        lemma_step_relabel(prog, threads.drop_first(), byte, f);
    }
    assert(step_roots(prog, relabel(threads, f), byte) =~= relabel(
        step_roots(prog, threads, byte),
        f,
    ));
}

/// Closing is the same at every position where no instruction depends on it.
pub proof fn lemma_close_anywhere(prog: Seq<Op>, len: int, pos: int, roots: Seq<(int, int)>)
    requires
        no_asserts(prog),
    ensures
        close(prog, len, pos, roots) == close(prog, 0, 0, roots),
    decreases roots.len(),
{
    if roots.len() > 0 {
        lemma_close_anywhere(prog, len, pos, roots.drop_last());
        let before = close(prog, 0, 0, roots.drop_last());
        lemma_walk_anywhere(prog, len, pos, seq![roots.last().0], before.seen);
    }
}

/// One more root adds the ready instructions of its own walk that are not there yet.
pub proof fn lemma_close_more(
    prog: Seq<Op>,
    len: int,
    pos: int,
    roots: Seq<(int, int)>,
    pc: int,
    start: int,
)
    ensures
        ({
            let c = close(prog, len, pos, roots);
            let fresh = walk(prog, len, pos, seq![pc], Set::empty()).ready;
            close(prog, len, pos, roots.push((pc, start))).threads == c.threads + begun(
                without(fresh, counters(c.threads).to_set()),
                start,
            )
        }),
{
    let c = close(prog, len, pos, roots);
    let w = walk(prog, len, pos, seq![pc], Set::empty());
    assert(roots.push((pc, start)).drop_last() =~= roots);
    lemma_close_counters(prog, len, pos, roots);
    lemma_walk(prog, len, pos, counters(roots), Set::empty());
    lemma_walk_without(prog, len, pos, seq![pc], Set::empty(), c.seen);
    assert(Set::<int>::empty().union(c.seen) =~= c.seen);
    lemma_walk(prog, len, pos, seq![pc], Set::empty());
    assert forall|i: int| 0 <= i < w.ready.len() implies c.seen.contains(#[trigger] w.ready[i])
        == counters(c.threads).to_set().contains(w.ready[i]) by {
        assert(w.ready.contains(w.ready[i]));
    }
    lemma_without_same(w.ready, c.seen, counters(c.threads).to_set());
}

/// Sets that agree on the elements of a list leave the same of it.
pub proof fn lemma_without_same(list: Seq<int>, a: Set<int>, b: Set<int>)
    requires
        forall|i: int| 0 <= i < list.len() ==> a.contains(#[trigger] list[i]) == b.contains(list[i]),
    ensures
        without(list, a) == without(list, b),
    decreases list.len(),
{
    if list.len() > 0 {
        assert forall|i: int| 0 <= i < list.drop_first().len() implies a.contains(
            #[trigger] list.drop_first()[i],
        ) == b.contains(list.drop_first()[i]) by {
            assert(list.drop_first()[i] == list[i + 1]);
        }
        lemma_without_same(list.drop_first(), a, b);
    }
}

}
