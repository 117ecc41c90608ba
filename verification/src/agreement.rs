//! Backtracking and the virtual machine find the same matches.
//!
//! Backtracking tries the ways through a program one after the other. The only thing that
//! it remembers is the way that it is on: it does not come back to an instruction at a
//! position at which it has been since the last byte. A search remembers every state that
//! it has entered. Neither goes wrong by it: what a search has entered and left again leads
//! to no match, however often it is tried.
use crate::automaton::{
    arms, in_prog, in_space, lemma_room, lemma_search_append, lemma_search_ignores_past, moves,
    preferred_from, room, search, Op,
};
use vstd::prelude::*;

verus! {

/// The first end to which backtracking comes from `pc` and `pos`, trying the first arm of a
/// fork before the second. `path` are the counters of the way since the last byte; a way
/// that comes back to one of them is given up.
pub open spec fn tried(
    prog: Seq<Op>,
    input: Seq<u8>,
    pc: int,
    pos: int,
    path: Set<int>,
) -> Option<int>
    decreases input.len() - pos, room(prog.len() as int, path),
{
    if !in_space(prog, input, (pc, pos)) || path.contains(pc) {
        None
    } else {
        proof {
            lemma_room(prog.len() as int, path, pc);
        }
        let on = path.insert(pc);
        match prog[pc] {
            Op::Match => Some(pos),
            Op::Byte(set) => if pos < input.len() && set.contains(input[pos]) {
                tried(prog, input, pc + 1, pos + 1, Set::empty())
            } else {
                None
            },
            Op::Split(x, y) => match tried(prog, input, x, pos, on) {
                Some(end) => Some(end),
                None => tried(prog, input, y, pos, on),
            },
            Op::Jmp(t) => tried(prog, input, t, pos, on),
            Op::StartAssert => if pos == 0 {
                tried(prog, input, pc + 1, pos, on)
            } else {
                None
            },
            Op::EndAssert => if pos == input.len() {
                tried(prog, input, pc + 1, pos, on)
            } else {
                None
            },
        }
    }
}

/// What a search has entered, on a way over the counters `path` at position `pos`: none of it
/// accepts, and from what is not on the way no move leads out of it.
spec fn settled(
    prog: Seq<Op>,
    input: Seq<u8>,
    seen: Set<(int, int)>,
    path: Set<int>,
    pos: int,
) -> bool {
    &&& forall|q: int| #[trigger] path.contains(q) ==> seen.contains((q, pos))
    &&& forall|s: (int, int)| #[trigger]
        seen.contains(s) ==> in_space(prog, input, s) && s.1 >= pos && !(prog[s.0] is Match)
    &&& forall|s: (int, int), i: int|
        #![trigger seen.contains(s), moves(prog, input, s)[i]]
        seen.contains(s) && !(s.1 == pos && path.contains(s.0)) && 0 <= i < moves(
            prog,
            input,
            s,
        ).len() && in_space(prog, input, moves(prog, input, s)[i]) ==> seen.contains(
            moves(prog, input, s)[i],
        )
}

/// The states behind position `pos`.
spec fn behind(seen: Set<(int, int)>, pos: int) -> Set<(int, int)> {
    Set::new(|s: (int, int)| seen.contains(s) && s.1 > pos)
}

proof fn lemma_settled_behind(
    prog: Seq<Op>,
    input: Seq<u8>,
    seen: Set<(int, int)>,
    path: Set<int>,
    pos: int,
)
    requires
        settled(prog, input, seen, path, pos),
    ensures
        settled(prog, input, behind(seen, pos), Set::empty(), pos + 1),
{
    let later = behind(seen, pos);
    assert forall|s: (int, int), i: int|
        #![trigger later.contains(s), moves(prog, input, s)[i]]
        later.contains(s) && 0 <= i < moves(prog, input, s).len() && in_space(
            prog,
            input,
            moves(prog, input, s)[i],
        ) implies later.contains(moves(prog, input, s)[i]) by {
        assert(seen.contains(s));
        assert(seen.contains(moves(prog, input, s)[i]));
    }
}

/// What a search has entered before leads backtracking to no match.
proof fn lemma_settled_fails(
    prog: Seq<Op>,
    input: Seq<u8>,
    pc: int,
    pos: int,
    path: Set<int>,
    seen: Set<(int, int)>,
)
    requires
        settled(prog, input, seen, path, pos),
        seen.contains((pc, pos)),
    ensures
        tried(prog, input, pc, pos, path) is None,
    decreases input.len() - pos, room(prog.len() as int, path),
{
    if !path.contains(pc) {
        let s = (pc, pos);
        let next = moves(prog, input, s);
        lemma_room(prog.len() as int, path, pc);
        let on = path.insert(pc);
        assert(settled(prog, input, seen, on, pos));
        match prog[pc] {
            Op::Byte(set) => {
                if pos < input.len() && set.contains(input[pos]) {
                    let later = behind(seen, pos);
                    assert(next[0] == (pc + 1, pos + 1));
                    lemma_settled_behind(prog, input, seen, path, pos);
                    if in_prog(prog, pc + 1) {
                        lemma_settled_fails(prog, input, pc + 1, pos + 1, Set::empty(), later);
                    }
                    assert(tried(prog, input, pc + 1, pos + 1, Set::empty()) is None);
                }
            },
            Op::Match => {},
            _ => {
                let pcs = arms(prog, input.len() as int, pos, pc);
                assert forall|i: int| 0 <= i < pcs.len() implies tried(
                    prog,
                    input,
                    #[trigger] pcs[i],
                    pos,
                    on,
                ) is None by {
                    assert(next[i] == (pcs[i], pos));
                    if in_prog(prog, pcs[i]) {
                        lemma_settled_fails(prog, input, pcs[i], pos, on, seen);
                    }
                }
                if pcs.len() > 0 {
                    assert(tried(prog, input, pcs[0], pos, on) is None);
                }
                if pcs.len() > 1 {
                    assert(tried(prog, input, pcs[1], pos, on) is None);
                }
            },
        }
    }
}

/// An instruction of which every arm has been tried in vain is no longer on the way.
proof fn lemma_settled_left(
    prog: Seq<Op>,
    input: Seq<u8>,
    seen: Set<(int, int)>,
    path: Set<int>,
    pos: int,
    pc: int,
)
    requires
        settled(prog, input, seen, path.insert(pc), pos),
        forall|i: int|
            0 <= i < moves(prog, input, (pc, pos)).len() && in_space(
                prog,
                input,
                #[trigger] moves(prog, input, (pc, pos))[i],
            ) ==> seen.contains(moves(prog, input, (pc, pos))[i]),
    ensures
        settled(prog, input, seen, path, pos),
{
    let on = path.insert(pc);
    assert forall|q: int| #[trigger] path.contains(q) implies seen.contains((q, pos)) by {
        assert(on.contains(q));
    }
    assert forall|s: (int, int), i: int|
        #![trigger seen.contains(s), moves(prog, input, s)[i]]
        seen.contains(s) && !(s.1 == pos && path.contains(s.0)) && 0 <= i < moves(
            prog,
            input,
            s,
        ).len() && in_space(prog, input, moves(prog, input, s)[i]) implies seen.contains(
        moves(prog, input, s)[i],
    ) by {
        if s.1 == pos && s.0 == pc {
            assert(s == (pc, pos));
        }
    }
}

/// Backtracking and a search come to the same end.
proof fn lemma_tried(
    prog: Seq<Op>,
    input: Seq<u8>,
    pc: int,
    pos: int,
    path: Set<int>,
    seen: Set<(int, int)>,
)
    requires
        settled(prog, input, seen, path, pos),
    ensures
        ({
            let (end, out) = search(prog, input, seq![(pc, pos)], seen);
            &&& tried(prog, input, pc, pos, path) == end
            &&& end is None ==> {
                &&& settled(prog, input, out, path, pos)
                &&& seen.subset_of(out)
                &&& in_space(prog, input, (pc, pos)) ==> out.contains((pc, pos))
            }
        }),
    decreases input.len() - pos, room(prog.len() as int, path),
{
    let s = (pc, pos);
    let stack = seq![s];
    let none = Seq::<(int, int)>::empty();
    assert(stack.drop_first() =~= none);
    assert(search(prog, input, none, seen) == (None::<int>, seen));
    if !in_space(prog, input, s) {
    } else if seen.contains(s) {
        lemma_settled_fails(prog, input, pc, pos, path, seen);
    } else if prog[pc] is Match {
    } else {
        assert(!path.contains(pc));
        lemma_room(prog.len() as int, path, pc);
        let next = moves(prog, input, s);
        let on = path.insert(pc);
        let now = seen.insert(s);
        assert(next + none =~= next);
        assert(search(prog, input, stack, seen) == search(prog, input, next, now));
        assert(search(prog, input, none, now) == (None::<int>, now));
        assert(settled(prog, input, now, on, pos)) by {
            assert forall|q: int| #[trigger] on.contains(q) implies now.contains((q, pos)) by {
                if q != pc {
                    assert(path.contains(q));
                }
            }
            assert forall|x: (int, int), i: int|
                #![trigger now.contains(x), moves(prog, input, x)[i]]
                now.contains(x) && !(x.1 == pos && on.contains(x.0)) && 0 <= i < moves(
                    prog,
                    input,
                    x,
                ).len() && in_space(prog, input, moves(prog, input, x)[i]) implies now.contains(
                moves(prog, input, x)[i],
            ) by {
                assert(seen.contains(x));
            }
        }
        match prog[pc] {
            Op::Byte(set) => {
                if pos < input.len() && set.contains(input[pos]) {
                    lemma_tried_byte(prog, input, pc, pos, path, seen);
                } else {
                    assert(next =~= none);
                    lemma_settled_left(prog, input, now, path, pos, pc);
                }
            },
            _ => {
                let pcs = arms(prog, input.len() as int, pos, pc);
                assert(next.len() == pcs.len());
                if pcs.len() == 0 {
                    assert(next =~= none);
                    lemma_settled_left(prog, input, now, path, pos, pc);
                } else if pcs.len() == 1 {
                    assert(next =~= seq![(pcs[0], pos)]);
                    lemma_tried(prog, input, pcs[0], pos, on, now);
                    let out = search(prog, input, next, now).1;
                    if search(prog, input, next, now).0 is None {
                        lemma_settled_left(prog, input, out, path, pos, pc);
                    }
                } else {
                    let a = seq![(pcs[0], pos)];
                    let b = seq![(pcs[1], pos)];
                    assert(next =~= a + b);
                    lemma_search_append(prog, input, a, b, now);
                    lemma_tried(prog, input, pcs[0], pos, on, now);
                    let (first, mid) = search(prog, input, a, now);
                    if first is None {
                        lemma_tried(prog, input, pcs[1], pos, on, mid);
                        let (second, out) = search(prog, input, b, mid);
                        if second is None {
                            assert forall|i: int|
                                0 <= i < next.len() && in_space(
                                    prog,
                                    input,
                                    #[trigger] next[i],
                                ) implies out.contains(next[i]) by {
                                if i == 0 {
                                    assert(mid.contains(next[0]));
                                }
                            }
                            lemma_settled_left(prog, input, out, path, pos, pc);
                        }
                    }
                }
            },
        }
    }
}

/// The same behind a byte.
proof fn lemma_tried_byte(
    prog: Seq<Op>,
    input: Seq<u8>,
    pc: int,
    pos: int,
    path: Set<int>,
    seen: Set<(int, int)>,
)
    requires
        settled(prog, input, seen, path, pos),
        in_space(prog, input, (pc, pos)),
        !seen.contains((pc, pos)),
        prog[pc] is Byte,
        pos < input.len(),
        prog[pc]->Byte_0.contains(input[pos]),
    ensures
        ({
            let (end, out) = search(prog, input, seq![(pc + 1, pos + 1)], seen.insert((pc, pos)));
            &&& tried(prog, input, pc + 1, pos + 1, Set::empty()) == end
            &&& end is None ==> {
                &&& settled(prog, input, out, path, pos)
                &&& seen.subset_of(out)
                &&& out.contains((pc, pos))
            }
        }),
    decreases input.len() - pos - 1, room(prog.len() as int, Set::empty()) + 1,
{
    let s = (pc, pos);
    let now = seen.insert(s);
    let stack = seq![(pc + 1, pos + 1)];
    let later = behind(seen, pos);
    let past = now.difference(later);
    lemma_settled_behind(prog, input, seen, path, pos);
    lemma_tried(prog, input, pc + 1, pos + 1, Set::empty(), later);
    assert(later.union(past) =~= now);
    lemma_search_ignores_past(prog, input, stack, later, past, pos + 1);
    let (end, on) = search(prog, input, stack, later);
    let out = search(prog, input, stack, now).1;
    assert(out == on.union(past));
    if end is None {
        assert forall|x: (int, int), i: int|
            #![trigger out.contains(x), moves(prog, input, x)[i]]
            out.contains(x) && !(x.1 == pos && path.contains(x.0)) && 0 <= i < moves(
                prog,
                input,
                x,
            ).len() && in_space(prog, input, moves(prog, input, x)[i]) implies out.contains(
            moves(prog, input, x)[i],
        ) by {
            let y = moves(prog, input, x)[i];
            if on.contains(x) {
                assert(on.contains(y));
            } else if x == s {
                assert(y == (pc + 1, pos + 1));
                assert(on.contains(y));
            } else {
                assert(seen.contains(x));
                assert(seen.contains(y));
                assert(now.contains(y));
            }
        }
        assert forall|q: int| #[trigger] path.contains(q) implies out.contains((q, pos)) by {
            assert(seen.contains((q, pos)));
        }
    }
}

/// Backtracking prefers the match that the program prefers: the way back to an instruction
/// at the same position never leads to a match that no other way leads to.
pub proof fn backtracking_prefers_alike(prog: Seq<Op>, input: Seq<u8>, pc: int, pos: int)
    ensures
        tried(prog, input, pc, pos, Set::empty()) == preferred_from(prog, input, pc, pos),
{
    lemma_tried(prog, input, pc, pos, Set::empty(), Set::empty());
}

}
