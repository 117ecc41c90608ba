//! What a pattern matches, whichever match is preferred.
//!
//! A tree shows how a pattern matches a part of the input. A matcher is exact if it finds a
//! match at every position from which there is a tree, and nothing without one.
use crate::ast::{may_be_empty, Pattern};
use crate::automaton::{
    dead, in_prog, in_space, lemma_search_fails, lemma_space, moves, preferred_end, search, space,
    Op,
};
use crate::thompson::{compile, holds, lemma_compile, lemma_holds_parts, program_of, size};
use vstd::prelude::*;

verus! {

/// How a pattern matches.
pub enum Tree {
    /// At once: an empty string, a byte, an anchor, no repetition.
    Leaf,
    /// By the first branch, or by the only part.
    Left(Box<Tree>),
    /// By the other branches.
    Right(Box<Tree>),
    /// By one part up to a position, and the others behind it.
    Pair(Box<Tree>, int, Box<Tree>),
}

/// Whether `tree` shows that `pattern` matches `input` from `s` to `e`.
pub open spec fn shows(tree: Tree, pattern: Pattern, input: Seq<u8>, s: int, e: int) -> bool
    decreases tree,
{
    match pattern {
        Pattern::Empty => s == e,
        Pattern::Fail => false,
        Pattern::Class(set) => 0 <= s < input.len() && set.contains(input[s]) && e == s + 1,
        Pattern::Start => s == 0 && e == s,
        Pattern::End => s == input.len() && e == s,
        Pattern::Cat(a, b) => match tree {
            Tree::Pair(first, m, rest) => shows(*first, *a, input, s, m) && shows(
                *rest,
                *b,
                input,
                m,
                e,
            ),
            _ => false,
        },
        Pattern::Alt(a, b) => match tree {
            Tree::Left(t) => shows(*t, *a, input, s, e),
            Tree::Right(t) => shows(*t, *b, input, s, e),
            _ => false,
        },
        Pattern::Last(p) => match tree {
            Tree::Left(t) => shows(*t, *p, input, s, e),
            _ => false,
        },
        Pattern::Star(p) => match tree {
            Tree::Leaf => s == e,
            Tree::Pair(first, m, rest) => shows(*first, *p, input, s, m) && shows(
                *rest,
                pattern,
                input,
                m,
                e,
            ),
            _ => false,
        },
        Pattern::Plus(p) => match tree {
            Tree::Pair(first, m, rest) => shows(*first, *p, input, s, m) && shows(
                *rest,
                Pattern::Star(p),
                input,
                m,
                e,
            ),
            _ => false,
        },
        Pattern::Quest(p) => match tree {
            Tree::Leaf => s == e,
            Tree::Left(t) => shows(*t, *p, input, s, e),
            _ => false,
        },
    }
}

/// Whether `pattern` matches `input` from `s` to `e`.
pub open spec fn spells(pattern: Pattern, input: Seq<u8>, s: int, e: int) -> bool {
    exists|tree: Tree| shows(tree, pattern, input, s, e)
}

/// A match lies in the input.
proof fn lemma_shows_within(tree: Tree, pattern: Pattern, input: Seq<u8>, s: int, e: int)
    requires
        shows(tree, pattern, input, s, e),
        0 <= s <= input.len(),
    ensures
        s <= e <= input.len(),
    decreases tree,
{
    match (pattern, tree) {
        (Pattern::Cat(a, b), Tree::Pair(first, m, rest)) => {
            lemma_shows_within(*first, *a, input, s, m);
            lemma_shows_within(*rest, *b, input, m, e);
        },
        (Pattern::Alt(a, b), Tree::Left(t)) => {
            lemma_shows_within(*t, *a, input, s, e);
        },
        (Pattern::Alt(a, b), Tree::Right(t)) => {
            lemma_shows_within(*t, *b, input, s, e);
        },
        (Pattern::Last(p), Tree::Left(t)) => {
            lemma_shows_within(*t, *p, input, s, e);
        },
        (Pattern::Star(p), Tree::Pair(first, m, rest)) => {
            lemma_shows_within(*first, *p, input, s, m);
            lemma_shows_within(*rest, pattern, input, m, e);
        },
        (Pattern::Plus(p), Tree::Pair(first, m, rest)) => {
            lemma_shows_within(*first, *p, input, s, m);
            lemma_shows_within(*rest, Pattern::Star(p), input, m, e);
        },
        (Pattern::Quest(p), Tree::Left(t)) => {
            lemma_shows_within(*t, *p, input, s, e);
        },
        _ => {},
    }
}

proof fn lemma_empty_tree(tree: Tree, pattern: Pattern, input: Seq<u8>, s: int)
    requires
        shows(tree, pattern, input, s, s),
        0 <= s <= input.len(),
    ensures
        may_be_empty(pattern),
    decreases tree,
{
    match (pattern, tree) {
        (Pattern::Cat(a, b), Tree::Pair(first, m, rest)) => {
            lemma_shows_within(*first, *a, input, s, m);
            lemma_shows_within(*rest, *b, input, m, s);
            lemma_empty_tree(*first, *a, input, s);
            lemma_empty_tree(*rest, *b, input, s);
        },
        (Pattern::Alt(a, b), Tree::Left(t)) => {
            lemma_empty_tree(*t, *a, input, s);
        },
        (Pattern::Alt(a, b), Tree::Right(t)) => {
            lemma_empty_tree(*t, *b, input, s);
        },
        (Pattern::Last(p), Tree::Left(t)) => {
            lemma_empty_tree(*t, *p, input, s);
        },
        (Pattern::Plus(p), Tree::Pair(first, m, rest)) => {
            lemma_shows_within(*first, *p, input, s, m);
            lemma_shows_within(*rest, Pattern::Star(p), input, m, s);
            lemma_empty_tree(*first, *p, input, s);
        },
        _ => {},
    }
}

/// A pattern that matches an empty part of some input is nullable.
pub proof fn empty_matches_are_nullable(pattern: Pattern, input: Seq<u8>, s: int)
    requires
        0 <= s <= input.len(),
        spells(pattern, input, s, s),
    ensures
        may_be_empty(pattern),
{
    let tree = choose|tree: Tree| shows(tree, pattern, input, s, s);
    lemma_empty_tree(tree, pattern, input, s);
}

// ---------------------------------------------------------------------------
// The virtual machine comes to every match.
// ---------------------------------------------------------------------------

/// Whether no move leads out of `area`.
spec fn is_closed(prog: Seq<Op>, input: Seq<u8>, area: Set<(int, int)>) -> bool {
    forall|s: (int, int), i: int|
        #![trigger area.contains(s), moves(prog, input, s)[i]]
        area.contains(s) && 0 <= i < moves(prog, input, s).len() && in_space(
            prog,
            input,
            moves(prog, input, s)[i],
        ) ==> area.contains(moves(prog, input, s)[i])
}

/// A closed area that holds a fork holds both arms.
proof fn lemma_closed_split(
    prog: Seq<Op>,
    input: Seq<u8>,
    area: Set<(int, int)>,
    pc: int,
    q: int,
    x: int,
    y: int,
)
    requires
        is_closed(prog, input, area),
        area.contains((pc, q)),
        in_space(prog, input, (pc, q)),
        prog[pc] == Op::Split(x, y),
        in_prog(prog, x),
        in_prog(prog, y),
    ensures
        area.contains((x, q)),
        area.contains((y, q)),
{
    let next = moves(prog, input, (pc, q));
    assert(next[0] == (x, q));
    assert(next[1] == (y, q));
}

/// A closed area that holds a jump holds its target.
proof fn lemma_closed_jump(
    prog: Seq<Op>,
    input: Seq<u8>,
    area: Set<(int, int)>,
    pc: int,
    q: int,
    t: int,
)
    requires
        is_closed(prog, input, area),
        area.contains((pc, q)),
        in_space(prog, input, (pc, q)),
        prog[pc] == Op::Jmp(t),
        in_prog(prog, t),
    ensures
        area.contains((t, q)),
{
    let next = moves(prog, input, (pc, q));
    assert(next[0] == (t, q));
}

/// A closed area that holds the start of the code of a pattern holds its end, behind every
/// match.
proof fn lemma_code_follows(
    tree: Tree,
    p: Pattern,
    prog: Seq<Op>,
    b: int,
    input: Seq<u8>,
    area: Set<(int, int)>,
    s: int,
    e: int,
)
    requires
        holds(prog, p, b),
        is_closed(prog, input, area),
        area.contains((b, s)),
        0 <= s <= input.len(),
        shows(tree, p, input, s, e),
    ensures
        area.contains((b + size(p), e)),
    decreases tree, 0int,
{
    lemma_holds_parts(prog, p, b);
    lemma_shows_within(tree, p, input, s, e);
    match p {
        Pattern::Class(_) | Pattern::Start | Pattern::End => {
            let next = moves(prog, input, (b, s));
            assert(next[0] == (b + 1, e));
        },
        Pattern::Cat(x, y) => {
            if let Tree::Pair(first, m, rest) = tree {
                lemma_shows_within(*first, *x, input, s, m);
                lemma_code_follows(*first, *x, prog, b, input, area, s, m);
                lemma_code_follows(*rest, *y, prog, b + size(*x), input, area, m, e);
            }
        },
        Pattern::Alt(x, y) => {
            lemma_closed_split(prog, input, area, b, s, b + 1, b + size(*x) + 2);
            match tree {
                Tree::Left(t) => {
                    lemma_code_follows(*t, *x, prog, b + 1, input, area, s, e);
                    lemma_closed_jump(
                        prog,
                        input,
                        area,
                        b + size(*x) + 1,
                        e,
                        b + size(*x) + size(*y) + 2,
                    );
                },
                Tree::Right(t) => {
                    lemma_code_follows(*t, *y, prog, b + size(*x) + 2, input, area, s, e);
                },
                _ => {},
            }
        },
        Pattern::Last(x) => {
            if let Tree::Left(t) = tree {
                lemma_code_follows(*t, *x, prog, b, input, area, s, e);
            }
        },
        Pattern::Star(x) => {
            lemma_closed_split(prog, input, area, b, s, b + 1, b + size(*x) + 2);
            if let Tree::Pair(first, m, rest) = tree {
                lemma_shows_within(*first, *x, input, s, m);
                lemma_code_follows(*first, *x, prog, b + 1, input, area, s, m);
                if may_be_empty(*x) {
                    lemma_loop_follows(*rest, x, prog, b + 1, input, area, m, e);
                } else {
                    lemma_closed_jump(prog, input, area, b + size(*x) + 1, m, b);
                    lemma_code_follows(*rest, p, prog, b, input, area, m, e);
                }
            }
        },
        Pattern::Plus(x) => {
            if let Tree::Pair(first, m, rest) = tree {
                lemma_shows_within(*first, *x, input, s, m);
                lemma_code_follows(*first, *x, prog, b, input, area, s, m);
                lemma_loop_follows(*rest, x, prog, b, input, area, m, e);
            }
        },
        Pattern::Quest(x) => {
            lemma_closed_split(prog, input, area, b, s, b + 1, b + size(*x) + 1);
            if let Tree::Left(t) = tree {
                lemma_code_follows(*t, *x, prog, b + 1, input, area, s, e);
            }
        },
        _ => {},
    }
}

/// The same from the end of the first repetition of `+` on.
proof fn lemma_loop_follows(
    tree: Tree,
    x: Box<Pattern>,
    prog: Seq<Op>,
    b: int,
    input: Seq<u8>,
    area: Set<(int, int)>,
    s: int,
    e: int,
)
    requires
        holds(prog, Pattern::Plus(x), b),
        is_closed(prog, input, area),
        area.contains((b + size(*x), s)),
        0 <= s <= input.len(),
        shows(tree, Pattern::Star(x), input, s, e),
    ensures
        area.contains((b + size(*x) + 1, e)),
    decreases tree, 1int,
{
    lemma_holds_parts(prog, Pattern::Plus(x), b);
    lemma_closed_split(prog, input, area, b + size(*x), s, b, b + size(*x) + 1);
    if let Tree::Pair(first, m, rest) = tree {
        lemma_shows_within(*first, *x, input, s, m);
        lemma_code_follows(*first, *x, prog, b, input, area, s, m);
        lemma_loop_follows(*rest, x, prog, b, input, area, m, e);
    }
}

// ---------------------------------------------------------------------------
// The virtual machine comes to nothing else.
// ---------------------------------------------------------------------------

/// How the code of a pattern is reached at some counter.
enum Spot {
    /// At its start.
    Here,
    /// In the first branch, the first part, or the only part.
    First(Box<Spot>),
    /// In the other branches.
    Other(Box<Spot>),
    /// In a part, behind a match of what comes before it.
    Behind(Tree, int, Box<Spot>),
    /// At its end.
    Done(Tree),
}

/// Whether `spot` shows that the code of `pattern` at `b`, entered at position `s`, is
/// reached at counter `pc` and position `q`.
spec fn reaches(
    spot: Spot,
    pattern: Pattern,
    b: int,
    input: Seq<u8>,
    s: int,
    pc: int,
    q: int,
) -> bool
    decreases spot,
{
    let start = pc == b && q == s;
    b <= pc <= b + size(pattern) && match pattern {
        Pattern::Empty => start,
        Pattern::Fail => start,
        Pattern::Class(_) | Pattern::Start | Pattern::End => start || (pc == b + 1 && shows(
            Tree::Leaf,
            pattern,
            input,
            s,
            q,
        )),
        Pattern::Cat(x, y) => match spot {
            Spot::First(w) => reaches(*w, *x, b, input, s, pc, q),
            Spot::Behind(t, m, w) => shows(t, *x, input, s, m) && reaches(
                *w,
                *y,
                b + size(*x),
                input,
                m,
                pc,
                q,
            ),
            _ => false,
        },
        Pattern::Alt(x, y) => match spot {
            Spot::Here => start,
            Spot::First(w) => reaches(*w, *x, b + 1, input, s, pc, q),
            Spot::Other(w) => reaches(*w, *y, b + size(*x) + 2, input, s, pc, q),
            Spot::Done(t) => pc == b + size(pattern) && shows(t, pattern, input, s, q),
            _ => false,
        },
        Pattern::Last(x) => match spot {
            Spot::First(w) => reaches(*w, *x, b, input, s, pc, q),
            _ => false,
        },
        Pattern::Star(x) => match spot {
            Spot::Behind(t, m, w) => shows(t, pattern, input, s, m) && ((pc == b && q == m)
                || reaches(*w, *x, b + 1, input, m, pc, q)),
            Spot::Done(t) => pc == b + size(pattern) && shows(t, pattern, input, s, q),
            _ => false,
        },
        Pattern::Plus(x) => match spot {
            Spot::Behind(t, m, w) => shows(t, Pattern::Star(x), input, s, m) && reaches(
                *w,
                *x,
                b,
                input,
                m,
                pc,
                q,
            ),
            Spot::Done(t) => pc == b + size(pattern) && shows(t, pattern, input, s, q),
            _ => false,
        },
        Pattern::Quest(x) => match spot {
            Spot::Here => start,
            Spot::First(w) => reaches(*w, *x, b + 1, input, s, pc, q),
            Spot::Done(t) => pc == b + size(pattern) && shows(t, pattern, input, s, q),
            _ => false,
        },
    }
}

proof fn lemma_in_code(
    spot: Spot,
    pattern: Pattern,
    b: int,
    input: Seq<u8>,
    s: int,
    pc: int,
    q: int,
)
    requires
        reaches(spot, pattern, b, input, s, pc, q),
    ensures
        b <= pc <= b + size(pattern),
{
}

/// The start of the code is reached.
proof fn lemma_at_start(p: Pattern, b: int, input: Seq<u8>, s: int) -> (spot: Spot)
    ensures
        reaches(spot, p, b, input, s, b, s),
    decreases p,
{
    match p {
        Pattern::Cat(x, y) => Spot::First(Box::new(lemma_at_start(*x, b, input, s))),
        Pattern::Last(x) => Spot::First(Box::new(lemma_at_start(*x, b, input, s))),
        Pattern::Star(x) => {
            assert(shows(Tree::Leaf, p, input, s, s));
            Spot::Behind(Tree::Leaf, s, Box::new(Spot::Here))
        },
        Pattern::Plus(x) => {
            assert(shows(Tree::Leaf, Pattern::Star(x), input, s, s));
            Spot::Behind(Tree::Leaf, s, Box::new(lemma_at_start(*x, b, input, s)))
        },
        _ => Spot::Here,
    }
}

/// A pattern without code matches the empty string.
proof fn lemma_without_code(p: Pattern, input: Seq<u8>, s: int) -> (tree: Tree)
    requires
        size(p) == 0,
    ensures
        shows(tree, p, input, s, s),
    decreases p,
{
    match p {
        Pattern::Cat(x, y) => Tree::Pair(
            Box::new(lemma_without_code(*x, input, s)),
            s,
            Box::new(lemma_without_code(*y, input, s)),
        ),
        Pattern::Last(x) => Tree::Left(Box::new(lemma_without_code(*x, input, s))),
        _ => Tree::Leaf,
    }
}

/// Where the end of the code is reached there is a match.
proof fn lemma_at_end(spot: Spot, p: Pattern, b: int, input: Seq<u8>, s: int, q: int) -> (tree:
    Tree)
    requires
        reaches(spot, p, b, input, s, b + size(p), q),
    ensures
        shows(tree, p, input, s, q),
    decreases spot,
{
    match (p, spot) {
        (Pattern::Cat(x, y), Spot::First(w)) => {
            lemma_in_code(*w, *x, b, input, s, b + size(p), q);
            let first = lemma_at_end(*w, *x, b, input, s, q);
            let rest = lemma_without_code(*y, input, q);
            Tree::Pair(Box::new(first), q, Box::new(rest))
        },
        (Pattern::Cat(x, y), Spot::Behind(t, m, w)) => Tree::Pair(
            Box::new(t),
            m,
            Box::new(lemma_at_end(*w, *y, b + size(*x), input, m, q)),
        ),
        (Pattern::Alt(x, y), Spot::First(w)) => {
            lemma_in_code(*w, *x, b + 1, input, s, b + size(p), q);
            Tree::Leaf
        },
        (Pattern::Alt(x, y), Spot::Other(w)) => Tree::Right(
            Box::new(lemma_at_end(*w, *y, b + size(*x) + 2, input, s, q)),
        ),
        (Pattern::Last(x), Spot::First(w)) => Tree::Left(
            Box::new(lemma_at_end(*w, *x, b, input, s, q)),
        ),
        (Pattern::Star(x), Spot::Behind(t, m, w)) => {
            if reaches(*w, *x, b + 1, input, m, b + size(p), q) {
                lemma_in_code(*w, *x, b + 1, input, m, b + size(p), q);
            }
            Tree::Leaf
        },
        (Pattern::Plus(x), Spot::Behind(t, m, w)) => {
            lemma_in_code(*w, *x, b, input, m, b + size(p), q);
            Tree::Leaf
        },
        (Pattern::Quest(x), Spot::First(w)) => Tree::Left(
            Box::new(lemma_at_end(*w, *x, b + 1, input, s, q)),
        ),
        (_, Spot::Done(t)) => t,
        _ => Tree::Leaf,
    }
}

/// One more repetition.
proof fn lemma_one_more(
    tree: Tree,
    x: Box<Pattern>,
    input: Seq<u8>,
    s: int,
    m: int,
    last: Tree,
    e: int,
) -> (longer: Tree)
    requires
        shows(tree, Pattern::Star(x), input, s, m),
        shows(last, *x, input, m, e),
    ensures
        shows(longer, Pattern::Star(x), input, s, e),
        longer is Pair,
    decreases tree,
{
    match tree {
        Tree::Pair(first, k, rest) => {
            let more = lemma_one_more(*rest, x, input, k, m, last, e);
            Tree::Pair(first, k, Box::new(more))
        },
        _ => {
            assert(shows(Tree::Leaf, Pattern::Star(x), input, e, e));
            Tree::Pair(Box::new(last), e, Box::new(Tree::Leaf))
        },
    }
}

/// A move stays where the code is reached.
proof fn lemma_move_reaches(
    spot: Spot,
    p: Pattern,
    prog: Seq<Op>,
    b: int,
    input: Seq<u8>,
    s: int,
    pc: int,
    q: int,
    i: int,
) -> (next: Spot)
    requires
        holds(prog, p, b),
        reaches(spot, p, b, input, s, pc, q),
        pc < b + size(p),
        0 <= q <= input.len(),
        0 <= i < moves(prog, input, (pc, q)).len(),
    ensures
        ({
            let to = moves(prog, input, (pc, q))[i];
            reaches(next, p, b, input, s, to.0, to.1)
        }),
    decreases p,
{
    lemma_holds_parts(prog, p, b);
    let to = moves(prog, input, (pc, q))[i];
    match p {
        Pattern::Class(_) | Pattern::Start | Pattern::End => {
            assert(to.0 == b + 1);
            assert(shows(Tree::Leaf, p, input, s, to.1));
            Spot::Here
        },
        Pattern::Cat(x, y) => {
            match spot {
                Spot::First(w) => {
                    lemma_in_code(*w, *x, b, input, s, pc, q);
                    if pc < b + size(*x) {
                        let w2 = lemma_move_reaches(*w, *x, prog, b, input, s, pc, q, i);
                        Spot::First(Box::new(w2))
                    } else {
                        let t = lemma_at_end(*w, *x, b, input, s, q);
                        let w1 = lemma_at_start(*y, pc, input, q);
                        let w2 = lemma_move_reaches(w1, *y, prog, pc, input, q, pc, q, i);
                        Spot::Behind(t, q, Box::new(w2))
                    }
                },
                Spot::Behind(t, m, w) => {
                    let w2 = lemma_move_reaches(*w, *y, prog, b + size(*x), input, m, pc, q, i);
                    Spot::Behind(t, m, Box::new(w2))
                },
                _ => Spot::Here,
            }
        },
        Pattern::Alt(x, y) => {
            match spot {
                Spot::Here => {
                    if i == 0 {
                        assert(to == (b + 1, q));
                        Spot::First(Box::new(lemma_at_start(*x, b + 1, input, s)))
                    } else {
                        assert(to == (b + size(*x) + 2, q));
                        Spot::Other(Box::new(lemma_at_start(*y, b + size(*x) + 2, input, s)))
                    }
                },
                Spot::First(w) => {
                    lemma_in_code(*w, *x, b + 1, input, s, pc, q);
                    if pc < b + 1 + size(*x) {
                        let w2 = lemma_move_reaches(*w, *x, prog, b + 1, input, s, pc, q, i);
                        Spot::First(Box::new(w2))
                    } else {
                        assert(to == (b + size(p), q));
                        let t = lemma_at_end(*w, *x, b + 1, input, s, q);
                        assert(shows(Tree::Left(Box::new(t)), p, input, s, q));
                        Spot::Done(Tree::Left(Box::new(t)))
                    }
                },
                Spot::Other(w) => {
                    let w2 = lemma_move_reaches(
                        *w,
                        *y,
                        prog,
                        b + size(*x) + 2,
                        input,
                        s,
                        pc,
                        q,
                        i,
                    );
                    Spot::Other(Box::new(w2))
                },
                _ => Spot::Here,
            }
        },
        Pattern::Last(x) => {
            match spot {
                Spot::First(w) => {
                    let w2 = lemma_move_reaches(*w, *x, prog, b, input, s, pc, q, i);
                    Spot::First(Box::new(w2))
                },
                _ => Spot::Here,
            }
        },
        Pattern::Star(x) => {
            match spot {
                Spot::Behind(t, m, w) => {
                    if pc == b && q == m {
                        if i == 0 {
                            assert(to == (b + 1, q));
                            let w2 = lemma_at_start(*x, b + 1, input, m);
                            Spot::Behind(t, m, Box::new(w2))
                        } else {
                            assert(to == (b + size(p), q));
                            Spot::Done(t)
                        }
                    } else if pc < b + 1 + size(*x) {
                        let w2 = lemma_move_reaches(*w, *x, prog, b + 1, input, m, pc, q, i);
                        Spot::Behind(t, m, Box::new(w2))
                    } else {
                        lemma_in_code(*w, *x, b + 1, input, m, pc, q);
                        let last = lemma_at_end(*w, *x, b + 1, input, m, q);
                        let longer = lemma_one_more(t, x, input, s, m, last, q);
                        if !may_be_empty(*x) {
                            assert(to == (b, q));
                            Spot::Behind(longer, q, Box::new(Spot::Here))
                        } else if i == 0 {
                            assert(to == (b + 1, q));
                            let w2 = lemma_at_start(*x, b + 1, input, q);
                            Spot::Behind(longer, q, Box::new(w2))
                        } else {
                            assert(to == (b + size(p), q));
                            Spot::Done(longer)
                        }
                    }
                },
                _ => Spot::Here,
            }
        },
        Pattern::Plus(x) => {
            match spot {
                Spot::Behind(t, m, w) => {
                    lemma_in_code(*w, *x, b, input, m, pc, q);
                    if pc < b + size(*x) {
                        let w2 = lemma_move_reaches(*w, *x, prog, b, input, m, pc, q, i);
                        Spot::Behind(t, m, Box::new(w2))
                    } else {
                        let last = lemma_at_end(*w, *x, b, input, m, q);
                        let longer = lemma_one_more(t, x, input, s, m, last, q);
                        if i == 0 {
                            assert(to == (b, q));
                            let w2 = lemma_at_start(*x, b, input, q);
                            Spot::Behind(longer, q, Box::new(w2))
                        } else {
                            assert(to == (b + size(p), q));
                            assert(shows(longer, p, input, s, q));
                            Spot::Done(longer)
                        }
                    }
                },
                _ => Spot::Here,
            }
        },
        Pattern::Quest(x) => {
            match spot {
                Spot::Here => {
                    if i == 0 {
                        assert(to == (b + 1, q));
                        Spot::First(Box::new(lemma_at_start(*x, b + 1, input, s)))
                    } else {
                        assert(to == (b + size(p), q));
                        assert(shows(Tree::Leaf, p, input, s, q));
                        Spot::Done(Tree::Leaf)
                    }
                },
                Spot::First(w) => {
                    let w2 = lemma_move_reaches(*w, *x, prog, b + 1, input, s, pc, q, i);
                    Spot::First(Box::new(w2))
                },
                _ => Spot::Here,
            }
        },
        _ => Spot::Here,
    }
}

/// Whether the program accepts at position `e` in `area`.
spec fn accepts_in(prog: Seq<Op>, area: Set<(int, int)>, e: int) -> bool {
    exists|pc: int| in_prog(prog, pc) && prog[pc] is Match && #[trigger] area.contains((pc, e))
}

/// A search from a closed area accepts at a state of it.
proof fn lemma_search_within(
    prog: Seq<Op>,
    input: Seq<u8>,
    stack: Seq<(int, int)>,
    seen: Set<(int, int)>,
    area: Set<(int, int)>,
)
    requires
        is_closed(prog, input, area),
        forall|i: int|
            0 <= i < stack.len() && in_space(prog, input, #[trigger] stack[i]) ==> area.contains(
                stack[i],
            ),
    ensures
        match search(prog, input, stack, seen).0 {
            Some(e) => accepts_in(prog, area, e),
            None => true,
        },
    decreases space(prog.len() as int, input.len() as int + 1, seen), stack.len(),
{
    if stack.len() > 0 {
        let s = stack[0];
        let rest = stack.drop_first();
        assert(forall|i: int| 0 <= i < rest.len() ==> rest[i] == stack[i + 1]);
        if !in_space(prog, input, s) || seen.contains(s) {
            lemma_search_within(prog, input, rest, seen, area);
        } else if prog[s.0] is Match {
            assert(s == (s.0, s.1));
            assert(area.contains(stack[0]));
            assert(area.contains((s.0, s.1)));
            assert(accepts_in(prog, area, s.1));
        } else {
            lemma_space(prog.len() as int, input.len() as int + 1, seen, s);
            let next = moves(prog, input, s);
            let more = next + rest;
            assert forall|i: int| 0 <= i < more.len() && in_space(
                prog,
                input,
                #[trigger] more[i],
            ) implies area.contains(more[i]) by {
                if i < next.len() {
                    assert(area.contains(s));
                    assert(more[i] == moves(prog, input, s)[i]);
                } else {
                    assert(more[i] == rest[i - next.len()]);
                }
            }
            lemma_search_within(prog, input, more, seen.insert(s), area);
        }
    }
}

/// What spells an atom: nothing an empty pattern, a byte of the set a class, the very start
/// of the input `^`, its very end `$`.
pub proof fn atoms_are_spelled(input: Seq<u8>, set: Set<u8>, s: int, e: int)
    ensures
        spells(Pattern::Empty, input, s, e) <==> s == e,
        !spells(Pattern::Fail, input, s, e),
        spells(Pattern::Class(set), input, s, e) <==> 0 <= s < input.len() && e == s + 1
            && set.contains(input[s]),
        spells(Pattern::Start, input, s, e) <==> s == 0 && e == 0,
        spells(Pattern::End, input, s, e) <==> s == input.len() && e == input.len(),
{
    if s == e {
        assert(shows(Tree::Leaf, Pattern::Empty, input, s, e));
    }
    if 0 <= s < input.len() && e == s + 1 && set.contains(input[s]) {
        assert(shows(Tree::Leaf, Pattern::Class(set), input, s, e));
    }
    if s == 0 && e == 0 {
        assert(shows(Tree::Leaf, Pattern::Start, input, s, e));
    }
    if s == input.len() && e == input.len() {
        assert(shows(Tree::Leaf, Pattern::End, input, s, e));
    }
}

/// What spells two patterns one behind the other: what spells the first up to some position,
/// and the second from there on.
pub proof fn parts_are_spelled_in_turn(
    a: Pattern,
    b: Pattern,
    input: Seq<u8>,
    s: int,
    e: int,
)
    ensures
        spells(Pattern::Cat(Box::new(a), Box::new(b)), input, s, e) <==> exists|m: int| #[trigger]
            spells(a, input, s, m) && spells(b, input, m, e),
{
    let p = Pattern::Cat(Box::new(a), Box::new(b));
    if spells(p, input, s, e) {
        let tree = choose|tree: Tree| shows(tree, p, input, s, e);
        if let Tree::Pair(first, m, rest) = tree {
            assert(shows(*first, a, input, s, m));
            assert(shows(*rest, b, input, m, e));
            assert(spells(a, input, s, m) && spells(b, input, m, e));
        }
    }
    if exists|m: int| #[trigger] spells(a, input, s, m) && spells(b, input, m, e) {
        let m = choose|m: int| #[trigger] spells(a, input, s, m) && spells(b, input, m, e);
        let first = choose|tree: Tree| shows(tree, a, input, s, m);
        let rest = choose|tree: Tree| shows(tree, b, input, m, e);
        assert(shows(Tree::Pair(Box::new(first), m, Box::new(rest)), p, input, s, e));
    }
}

/// What spells an alternation: what spells one of its branches.
pub proof fn branches_are_spelled(a: Pattern, b: Pattern, input: Seq<u8>, s: int, e: int)
    ensures
        spells(Pattern::Alt(Box::new(a), Box::new(b)), input, s, e) <==> spells(a, input, s, e)
            || spells(b, input, s, e),
        spells(Pattern::Last(Box::new(a)), input, s, e) <==> spells(a, input, s, e),
        spells(Pattern::Quest(Box::new(a)), input, s, e) <==> s == e || spells(a, input, s, e),
{
    let p = Pattern::Alt(Box::new(a), Box::new(b));
    let last = Pattern::Last(Box::new(a));
    let quest = Pattern::Quest(Box::new(a));
    if spells(p, input, s, e) {
        let tree = choose|tree: Tree| shows(tree, p, input, s, e);
        match tree {
            Tree::Left(t) => assert(shows(*t, a, input, s, e)),
            Tree::Right(t) => assert(shows(*t, b, input, s, e)),
            _ => {},
        }
    }
    if spells(last, input, s, e) {
        let tree = choose|tree: Tree| shows(tree, last, input, s, e);
        if let Tree::Left(t) = tree {
            assert(shows(*t, a, input, s, e));
        }
    }
    if spells(quest, input, s, e) {
        let tree = choose|tree: Tree| shows(tree, quest, input, s, e);
        if let Tree::Left(t) = tree {
            assert(shows(*t, a, input, s, e));
        }
    }
    if spells(a, input, s, e) {
        let t = choose|tree: Tree| shows(tree, a, input, s, e);
        assert(shows(Tree::Left(Box::new(t)), p, input, s, e));
        assert(shows(Tree::Left(Box::new(t)), last, input, s, e));
        assert(shows(Tree::Left(Box::new(t)), quest, input, s, e));
    }
    if spells(b, input, s, e) {
        let t = choose|tree: Tree| shows(tree, b, input, s, e);
        assert(shows(Tree::Right(Box::new(t)), p, input, s, e));
    }
    if s == e {
        assert(shows(Tree::Leaf, quest, input, s, e));
    }
}

/// Whether `input` from the first of `cuts` to the last is spelled by `pattern` from each cut
/// to the next.
pub open spec fn is_chain(pattern: Pattern, input: Seq<u8>, cuts: Seq<int>) -> bool {
    forall|i: int|
        0 <= i < cuts.len() - 1 ==> spells(pattern, input, #[trigger] cuts[i], cuts[i + 1])
}

proof fn lemma_chain(tree: Tree, p: Box<Pattern>, input: Seq<u8>, s: int, e: int) -> (cuts: Seq<int>)
    requires
        shows(tree, Pattern::Star(p), input, s, e),
    ensures
        cuts.len() > 0,
        cuts[0] == s,
        cuts.last() == e,
        is_chain(*p, input, cuts),
    decreases tree,
{
    match tree {
        Tree::Pair(first, m, rest) => {
            let more = lemma_chain(*rest, p, input, m, e);
            let cuts = seq![s] + more;
            assert(shows(*first, *p, input, s, m));
            assert forall|i: int| 0 <= i < cuts.len() - 1 implies spells(
                *p,
                input,
                #[trigger] cuts[i],
                cuts[i + 1],
            ) by {
                if i > 0 {
                    assert(spells(*p, input, more[i - 1], more[i - 1 + 1]));
                }
            }
            cuts
        },
        _ => seq![s],
    }
}

proof fn lemma_chain_shows(p: Box<Pattern>, input: Seq<u8>, cuts: Seq<int>) -> (tree: Tree)
    requires
        cuts.len() > 0,
        is_chain(*p, input, cuts),
    ensures
        shows(tree, Pattern::Star(p), input, cuts[0], cuts.last()),
        cuts.len() > 1 ==> tree is Pair,
    decreases cuts.len(),
{
    if cuts.len() == 1 {
        Tree::Leaf
    } else {
        let rest = cuts.drop_first();
        assert forall|i: int| 0 <= i < rest.len() - 1 implies spells(
            *p,
            input,
            #[trigger] rest[i],
            rest[i + 1],
        ) by {
            assert(spells(*p, input, cuts[i + 1], cuts[i + 1 + 1]));
        }
        let more = lemma_chain_shows(p, input, rest);
        assert(spells(*p, input, cuts[0], cuts[1]));
        let first = choose|tree: Tree| shows(tree, *p, input, cuts[0], cuts[1]);
        let tree = Tree::Pair(Box::new(first), cuts[1], Box::new(more));
        assert(rest.last() == cuts.last());
        tree
    }
}

/// What spells a repetition: what can be cut so that the body spells every piece. With `*`
/// there may be no piece at all, with `+` there is one at least.
pub proof fn repetitions_are_spelled_piece_by_piece(
    p: Pattern,
    input: Seq<u8>,
    s: int,
    e: int,
)
    ensures
        spells(Pattern::Star(Box::new(p)), input, s, e) <==> exists|cuts: Seq<int>|
            cuts.len() > 0 && cuts[0] == s && cuts.last() == e && #[trigger] is_chain(
                p,
                input,
                cuts,
            ),
        spells(Pattern::Plus(Box::new(p)), input, s, e) <==> exists|cuts: Seq<int>|
            cuts.len() > 1 && cuts[0] == s && cuts.last() == e && #[trigger] is_chain(
                p,
                input,
                cuts,
            ),
{
    let star = Pattern::Star(Box::new(p));
    let plus = Pattern::Plus(Box::new(p));
    if spells(star, input, s, e) {
        let tree = choose|tree: Tree| shows(tree, star, input, s, e);
        let cuts = lemma_chain(tree, Box::new(p), input, s, e);
        assert(is_chain(p, input, cuts));
    }
    if exists|cuts: Seq<int>|
        cuts.len() > 0 && cuts[0] == s && cuts.last() == e && #[trigger] is_chain(p, input, cuts) {
        let cuts = choose|cuts: Seq<int>|
            cuts.len() > 0 && cuts[0] == s && cuts.last() == e && #[trigger] is_chain(
                p,
                input,
                cuts,
            );
        let tree = lemma_chain_shows(Box::new(p), input, cuts);
        assert(shows(tree, star, input, s, e));
    }
    if spells(plus, input, s, e) {
        let tree = choose|tree: Tree| shows(tree, plus, input, s, e);
        if let Tree::Pair(first, m, rest) = tree {
            assert(shows(tree, star, input, s, e));
            let more = lemma_chain(*rest, Box::new(p), input, m, e);
            let cuts = seq![s] + more;
            assert(shows(*first, p, input, s, m));
            assert forall|i: int| 0 <= i < cuts.len() - 1 implies spells(
                p,
                input,
                #[trigger] cuts[i],
                cuts[i + 1],
            ) by {
                if i > 0 {
                    assert(spells(p, input, more[i - 1], more[i - 1 + 1]));
                }
            }
            assert(is_chain(p, input, cuts));
        }
    }
    if exists|cuts: Seq<int>|
        cuts.len() > 1 && cuts[0] == s && cuts.last() == e && #[trigger] is_chain(p, input, cuts) {
        let cuts = choose|cuts: Seq<int>|
            cuts.len() > 1 && cuts[0] == s && cuts.last() == e && #[trigger] is_chain(
                p,
                input,
                cuts,
            );
        let tree = lemma_chain_shows(Box::new(p), input, cuts);
        if let Tree::Pair(first, m, rest) = tree {
            assert(shows(tree, plus, input, s, e));
        }
    }
}

/// The virtual machine finds a match from `start` if and only if there is one, and what it
/// finds is one.
pub proof fn machine_is_exact(pattern: Pattern, input: Seq<u8>, start: int)
    requires
        0 <= start <= input.len(),
    ensures
        match preferred_end(program_of(pattern), input, start) {
            Some(end) => spells(pattern, input, start, end),
            None => forall|end: int| !spells(pattern, input, start, end),
        },
{
    let prog = program_of(pattern);
    let stack = seq![(0int, start)];
    lemma_compile(pattern, 0);
    assert(holds(prog, pattern, 0));
    match preferred_end(prog, input, start) {
        Some(end) => {
            let area = Set::new(
                |s: (int, int)|
                    exists|spot: Spot| reaches(spot, pattern, 0, input, start, s.0, s.1),
            );
            assert(is_closed(prog, input, area)) by {
                assert forall|s: (int, int), i: int|
                    #![trigger area.contains(s), moves(prog, input, s)[i]]
                    area.contains(s) && 0 <= i < moves(prog, input, s).len() && in_space(
                        prog,
                        input,
                        moves(prog, input, s)[i],
                    ) implies area.contains(moves(prog, input, s)[i]) by {
                    let spot = choose|spot: Spot|
                        reaches(spot, pattern, 0, input, start, s.0, s.1);
                    if s.0 < size(pattern) {
                        let next = lemma_move_reaches(
                            spot,
                            pattern,
                            prog,
                            0,
                            input,
                            start,
                            s.0,
                            s.1,
                            i,
                        );
                        let to = moves(prog, input, s)[i];
                        assert(reaches(next, pattern, 0, input, start, to.0, to.1));
                    } else {
                        assert(prog[s.0] is Match);
                    }
                }
            }
            let first = lemma_at_start(pattern, 0, input, start);
            assert(reaches(first, pattern, 0, input, start, 0, start));
            lemma_search_within(prog, input, stack, Set::empty(), area);
            let pc = choose|pc: int|
                in_prog(prog, pc) && prog[pc] is Match && #[trigger] area.contains((pc, end));
            let spot = choose|spot: Spot| reaches(spot, pattern, 0, input, start, pc, end);
            assert(pc == size(pattern)) by {
                if pc < size(pattern) {
                    assert(prog[pc] == compile(pattern, 0)[pc]);
                }
            }
            let tree = lemma_at_end(spot, pattern, 0, input, start, end);
            assert(shows(tree, pattern, input, start, end));
        },
        None => {
            lemma_search_fails(prog, input, stack, Set::empty());
            let area = search(prog, input, stack, Set::empty()).1;
            assert(dead(prog, input, area));
            assert(is_closed(prog, input, area)) by {
                assert forall|s: (int, int), i: int|
                    #![trigger area.contains(s), moves(prog, input, s)[i]]
                    area.contains(s) && 0 <= i < moves(prog, input, s).len() && in_space(
                        prog,
                        input,
                        moves(prog, input, s)[i],
                    ) implies area.contains(moves(prog, input, s)[i]) by {
                    assert(!Seq::<(int, int)>::empty().contains(moves(prog, input, s)[i]));
                }
            }
            assert(in_space(prog, input, stack[0]));
            assert(area.contains((0, start)));
            assert forall|end: int| !spells(pattern, input, start, end) by {
                if spells(pattern, input, start, end) {
                    let tree = choose|tree: Tree| shows(tree, pattern, input, start, end);
                    lemma_code_follows(tree, pattern, prog, 0, input, area, start, end);
                    assert(area.contains((size(pattern) as int, end)));
                    assert(prog[size(pattern) as int] is Match);
                }
            }
        },
    }
}

/// A match ends no sooner than it starts, and in the input.
pub proof fn matches_lie_within(pattern: Pattern, input: Seq<u8>, s: int, e: int)
    requires
        0 <= s <= input.len(),
        spells(pattern, input, s, e),
    ensures
        s <= e <= input.len(),
{
    let tree = choose|tree: Tree| shows(tree, pattern, input, s, e);
    lemma_shows_within(tree, pattern, input, s, e);
}

}
