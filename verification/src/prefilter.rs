//! Matching with a literal-prefix prefilter.
//!
//! Any match of a pattern that starts with a run of literal bytes begins at an
//! occurrence of that run, so a substring search can jump straight to the candidate
//! starts. Each candidate is then verified with an anchored run of the virtual machine.
//! Patterns without a leading literal of two bytes or more are left to the plain scan.
use crate::ast::{alt_of, cat_of, pattern_of, Node, Pattern, Regex};
use crate::automaton::{
    lemma_search_ignores_past, moves, preferred_end, preferred_from, search, Op,
};
use crate::language::{matches_lie_within, shows, spells, Tree};
use crate::lockstep::{lemma_vm_find_valid, vm_find};
use crate::scan::{found, leftmost, ranges, scan_matches, Span};
use crate::thompson::{self, compile, lemma_compile, program_of, vm_matches, Program};
use vstd::prelude::*;

verus! {

/// Whether `needle` stands in `haystack` at `i`.
pub open spec fn occurs_at(haystack: Seq<u8>, needle: Seq<u8>, i: int) -> bool {
    0 <= i && i + needle.len() <= haystack.len() && haystack.subrange(i, i + needle.len()) == needle
}

/// `memchr::memmem::find`: the index of the first occurrence of `needle` in `haystack`,
/// or `None` if it does not occur.
#[verifier::external_body]
fn find_literal(haystack: &[u8], needle: &[u8]) -> (at: Option<usize>)
    ensures
        match at {
            Some(i) => occurs_at(haystack@, needle@, i as int) && forall|j: int|
                0 <= j < i ==> !occurs_at(haystack@, needle@, j),
            None => forall|j: int| !occurs_at(haystack@, needle@, j),
        },
{
    memchr::memmem::find(haystack, needle)
}

/// The byte of a set of one.
pub open spec fn only_byte(set: Set<u8>) -> Option<u8> {
    if exists|b: u8| set == set![b] {
        Some(choose|b: u8| set == set![b])
    } else {
        None
    }
}

/// The single bytes at the start of a concatenation.
pub open spec fn literal_run(pattern: Pattern) -> Seq<u8>
    decreases pattern,
{
    match pattern {
        Pattern::Cat(first, rest) => match *first {
            Pattern::Class(set) => match only_byte(set) {
                Some(b) => seq![b] + literal_run(*rest),
                None => Seq::empty(),
            },
            _ => Seq::empty(),
        },
        _ => Seq::empty(),
    }
}

/// The single bytes at the very start of a pattern.
pub open spec fn literal_prefix(pattern: Pattern) -> Seq<u8> {
    match pattern {
        Pattern::Class(set) => match only_byte(set) {
            Some(b) => seq![b],
            None => Seq::empty(),
        },
        _ => literal_run(pattern),
    }
}

/// A class with a single byte accepts that byte only.
proof fn lemma_only_byte(set: Set<u8>, only: Option<u8>)
    requires
        match only {
            Some(b) => set == set![b],
            None => forall|b: u8| set != set![b],
        },
    ensures
        only_byte(set) == only,
{
    if let Some(b) = only {
        let c = choose|c: u8| set == set![c];
        assert(set == set![b]);
        assert(set.contains(c));
    }
}

/// The maximal run of single literal bytes at the very start of the pattern, or `None`
/// if the pattern does not begin with a literal.
pub fn leading_literal_prefix(ast: &Node) -> (prefix: Option<Vec<u8>>)
    ensures
        match prefix {
            Some(bytes) => bytes.len() > 0 && bytes@ == literal_prefix(ast@),
            None => literal_prefix(ast@) == Seq::<u8>::empty(),
        },
{
    let parts: &Vec<Node> = match ast {
        Node::Concat(parts) => parts,
        Node::Class(class) => {
            let only = class.single_byte();
            proof {
                lemma_only_byte(class@, only);
            }
            return match only {
                Some(b) => Some(vec![b]),
                None => None,
            };
        },
        _ => {
            proof {
                if let Node::Alt(branches) = ast {
                    assert(!(alt_of(branches@, 0) is Cat));
                }
                assert(literal_run(ast@) == Seq::<u8>::empty());
            }
            return None;
        },
    };
    let mut prefix: Vec<u8> = Vec::new();
    let mut i: usize = 0;
    let ghost whole = literal_run(cat_of(parts@, 0));
    assert(prefix@ + whole =~= whole);
    while i < parts.len()
        invariant_except_break
            whole == prefix@ + literal_run(cat_of(parts@, i as int)),
        invariant
            i <= parts.len(),
        ensures
            whole == prefix@,
        decreases parts.len() - i,
    {
        let ghost rest = literal_run(cat_of(parts@, i + 1));
        let ghost was = prefix@;
        let ghost first = pattern_of(parts@[i as int]);
        assert(cat_of(parts@, i as int) == Pattern::Cat(
            Box::new(first),
            Box::new(cat_of(parts@, i + 1)),
        ));
        assert(literal_run(cat_of(parts@, i as int)) == match first {
            Pattern::Class(set) => match only_byte(set) {
                Some(b) => seq![b] + rest,
                None => Seq::empty(),
            },
            _ => Seq::empty(),
        });
        let mut more: bool = false;
        if let Node::Class(class) = &parts[i] {
            let only = class.single_byte();
            proof {
                lemma_only_byte(class@, only);
            }
            if let Some(byte) = only {
                prefix.push(byte);
                more = true;
                assert(was + (seq![byte] + rest) =~= prefix@ + rest);
            }
        }
        if !more {
            proof {
                match parts@[i as int] {
                    Node::Concat(inner) => assert(!(cat_of(inner@, 0) is Class)),
                    Node::Alt(inner) => assert(!(alt_of(inner@, 0) is Class)),
                    _ => {},
                }
            }
            assert(prefix@ + Seq::<u8>::empty() =~= prefix@);
            break;
        }
        i += 1;
        assert(prefix@ + Seq::<u8>::empty() =~= prefix@);
    }
    if prefix.len() == 0 {
        assert(whole =~= Seq::<u8>::empty());
        None
    } else {
        Some(prefix)
    }
}

/// The program begins by consuming the bytes of `prefix`.
spec fn begins_with(prog: Seq<Op>, prefix: Seq<u8>) -> bool {
    &&& prefix.len() <= prog.len()
    &&& forall|i: int| 0 <= i < prefix.len() ==> #[trigger] prog[i] == Op::Byte(set![prefix[i]])
}

proof fn lemma_only_byte_is(set: Set<u8>)
    requires
        only_byte(set) is Some,
    ensures
        set == set![only_byte(set)->0],
{
}

/// The code of a pattern begins with the bytes of its literal run.
proof fn lemma_run_code(pattern: Pattern, base: int)
    ensures
        begins_with(compile(pattern, base), literal_run(pattern)),
    decreases pattern,
{
    lemma_compile(pattern, base);
    if let Pattern::Cat(first, rest) = pattern {
        if let Pattern::Class(set) = *first {
            if only_byte(set) is Some {
                lemma_only_byte_is(set);
                lemma_run_code(*rest, base + 1);
                lemma_compile(*rest, base + 1);
                let code = compile(pattern, base);
                let run = literal_run(pattern);
                assert(compile(*first, base) =~= seq![Op::Byte(set)]);
                assert forall|i: int| 0 <= i < run.len() implies #[trigger] code[i] == Op::Byte(
                    set![run[i]],
                ) by {
                    if i > 0 {
                        assert(code[i] == compile(*rest, base + 1)[i - 1]);
                        assert(run[i] == literal_run(*rest)[i - 1]);
                    }
                }
            }
        }
    }
}

proof fn lemma_prefix_code(pattern: Pattern)
    ensures
        begins_with(program_of(pattern), literal_prefix(pattern)),
{
    lemma_run_code(pattern, 0);
    lemma_compile(pattern, 0);
    let code = compile(pattern, 0);
    let prog = program_of(pattern);
    let prefix = literal_prefix(pattern);
    if let Pattern::Class(set) = pattern {
        if only_byte(set) is Some {
            lemma_only_byte_is(set);
        }
        assert(begins_with(code, prefix));
    }
    assert(forall|i: int| 0 <= i < code.len() ==> prog[i] == code[i]);
}

/// A match that goes on from the `k`-th byte of the prefix has the rest of the prefix
/// in front of it.
proof fn lemma_match_has_prefix(prog: Seq<Op>, input: Seq<u8>, prefix: Seq<u8>, k: int, pos: int)
    requires
        begins_with(prog, prefix),
        0 <= k <= prefix.len(),
        0 <= pos <= input.len(),
        preferred_from(prog, input, k, pos) is Some,
    ensures
        pos + prefix.len() - k <= input.len(),
        forall|j: int| k <= j < prefix.len() ==> input[pos + j - k] == #[trigger] prefix[j],
    decreases prefix.len() - k,
{
    if k < prefix.len() {
        let s = (k, pos);
        let none: Set<(int, int)> = Set::empty();
        assert(prog[k] == Op::Byte(set![prefix[k]]));
        let rest = seq![s].drop_first();
        assert(rest =~= Seq::<(int, int)>::empty());
        let next = moves(prog, input, s);
        assert(next + rest =~= next);
        assert(search(prog, input, next, none.insert(s)).0 is Some);
        if next.len() == 0 {
            assert(false);
        }
        assert(next =~= seq![(k + 1, pos + 1)]);
        let past = none.insert(s);
        assert(none.union(past) =~= past);
        lemma_search_ignores_past(prog, input, next, none, past, pos + 1);
        lemma_match_has_prefix(prog, input, prefix, k + 1, pos + 1);
        assert(set![prefix[k]].contains(input[pos]));
    }
}

/// Where the prefix does not stand no match begins.
proof fn lemma_no_match_without_prefix(prog: Seq<Op>, input: Seq<u8>, prefix: Seq<u8>, start: int)
    requires
        begins_with(prog, prefix),
        0 <= start <= input.len(),
        !occurs_at(input, prefix, start),
    ensures
        preferred_end(prog, input, start) is None,
{
    if preferred_end(prog, input, start) is Some {
        lemma_match_has_prefix(prog, input, prefix, 0, start);
        assert(input.subrange(start, start + prefix.len()) =~= prefix);
    }
}

/// Starts without a match are passed over.
proof fn lemma_skip_starts(prog: Seq<Op>, input: Seq<u8>, from: int, to: int)
    requires
        0 <= from <= to <= input.len() + 1,
        forall|s: int| from <= s < to ==> preferred_end(prog, input, s) is None,
    ensures
        vm_find(prog, input, from, true) == vm_find(prog, input, to, true),
    decreases to - from,
{
    if from < to {
        let end_at = |start: int| preferred_end(prog, input, start);
        assert(end_at(from) is None);
        lemma_skip_starts(prog, input, from + 1, to);
    }
}

/// Find the leftmost match at or after `scan` by jumping between literal hits.
fn find_with_prefix(prog: &Program, input: &[u8], prefix: &[u8], scan: usize) -> (hit: Option<
    (usize, usize),
>)
    requires
        prefix.len() > 0,
        begins_with(prog@, prefix@),
        scan <= input.len(),
    ensures
        found(hit) == vm_find(prog@, input@, scan as int, true),
{
    let len: usize = input.len();
    let mut pos: usize = scan;
    loop
        invariant
            prefix.len() > 0,
            begins_with(prog@, prefix@),
            scan <= pos <= len == input.len(),
            vm_find(prog@, input@, scan as int, true) == vm_find(prog@, input@, pos as int, true),
        decreases len - pos,
    {
        let rest = &input[pos..len];
        match find_literal(rest, prefix) {
            None => {
                proof {
                    assert forall|s: int| pos <= s < len + 1 implies preferred_end(
                        prog@,
                        input@,
                        s,
                    ) is None by {
                        assert(!occurs_at(rest@, prefix@, s - pos));
                        lemma_occurs_in_rest(input@, prefix@, pos as int, s);
                        lemma_no_match_without_prefix(prog@, input@, prefix@, s);
                    }
                    lemma_skip_starts(prog@, input@, pos as int, len + 1);
                }
                return None;
            },
            Some(rel) => {
                let start: usize = pos + rel;
                proof {
                    assert forall|s: int| pos <= s < start implies preferred_end(
                        prog@,
                        input@,
                        s,
                    ) is None by {
                        assert(!occurs_at(rest@, prefix@, s - pos));
                        lemma_occurs_in_rest(input@, prefix@, pos as int, s);
                        lemma_no_match_without_prefix(prog@, input@, prefix@, s);
                    }
                    lemma_skip_starts(prog@, input@, pos as int, start as int);
                }
                let hit = thompson::pike_find(prog, input, start, false);
                if hit.is_some() {
                    return hit;
                }
                proof {
                    lemma_skip_starts(prog@, input@, start as int, start + 1);
                }
                pos = start + 1;
            },
        }
    }
}

proof fn lemma_occurs_in_rest(input: Seq<u8>, prefix: Seq<u8>, pos: int, s: int)
    requires
        0 <= pos <= s,
        pos <= input.len(),
    ensures
        occurs_at(input, prefix, s) == occurs_at(
            input.subrange(pos, input.len() as int),
            prefix,
            s - pos,
        ),
{
    let rest = input.subrange(pos, input.len() as int);
    if s + prefix.len() <= input.len() {
        assert(rest.subrange(s - pos, s - pos + prefix.len()) =~= input.subrange(
            s,
            s + prefix.len(),
        ));
    }
}

/// Find all non-overlapping matches with a literal-prefix prefilter.
pub fn find_all(re: &Regex, input: &[u8], out: &mut Vec<Span>)
    ensures
        ranges(final(out)@) == ranges(old(out)@) + vm_matches(re.ast@, input@),
{
    if let Some(prefix) = leading_literal_prefix(&re.ast) {
        if prefix.len() >= 2 {
            let prog = Program::new(&re.ast);
            let len: usize = input.len();
            proof {
                lemma_prefix_code(re.ast@);
            }
            let find_at = |scan: usize| -> (hit: Option<(usize, usize)>)
                requires
                    scan <= len,
                ensures
                    found(hit) == vm_find(prog@, input@, scan as int, true),
                { find_with_prefix(&prog, input, prefix.as_slice(), scan) };
            let ghost f = |scan: int|
                leftmost(
                    |start: int| preferred_end(program_of(re.ast@), input@, start),
                    input@.len() as int,
                    scan,
                );
            proof {
                assert forall|scan: usize, m: Option<(usize, usize)>|
                    #![trigger find_at.ensures((scan,), m)]
                    find_at.ensures((scan,), m) && scan <= len implies found(m) == f(scan as int)
                    && (m matches Some((start, end)) ==> scan <= start <= end) by {
                    lemma_vm_find_valid(program_of(re.ast@), input@, scan as int);
                }
            }
            scan_matches(len, find_at, out);
            return;
        }
    }
    thompson::find_all(re, input, out);
}

/// Whether `pattern` is the bytes of `literal`, one behind the other, and then `rest`.
pub open spec fn opens_with(pattern: Pattern, literal: Seq<u8>, rest: Pattern) -> bool
    decreases literal.len(),
{
    if literal.len() == 0 {
        pattern == rest
    } else {
        match pattern {
            Pattern::Cat(first, more) => *first == Pattern::Class(set![literal[0]]) && opens_with(
                *more,
                literal.drop_first(),
                rest,
            ),
            _ => false,
        }
    }
}

/// The literal of a pattern is the longest run of single bytes that it opens with: what follows
/// it opens with no single byte. That of a class is its only byte, if it has only one.
pub proof fn literals_are_longest_openings(pattern: Pattern) -> (rest: Pattern)
    ensures
        pattern is Class ==> {
            let literal = literal_prefix(pattern);
            &&& literal.len() == 1 ==> pattern == Pattern::Class(set![literal[0]])
            &&& literal.len() != 1 ==> literal.len() == 0 && forall|b: u8|
                pattern != Pattern::Class(#[trigger] set![b])
        },
        !(pattern is Class) ==> opens_with(pattern, literal_prefix(pattern), rest),
        !(pattern is Class) ==> forall|b: u8, more: Pattern|
            !opens_with(rest, #[trigger] seq![b], more),
{
    if let Pattern::Class(set) = pattern {
        if let Some(b) = only_byte(set) {
            assert(set == set![b]);
        } else {
            assert forall|b: u8| pattern != Pattern::Class(#[trigger] set![b]) by {
                assert(set != set![b]);
            }
        }
    }
    lemma_longest_run(pattern)
}

#[verifier::spinoff_prover]
#[verifier::rlimit(40)]
proof fn lemma_longest_run(pattern: Pattern) -> (rest: Pattern)
    ensures
        opens_with(pattern, literal_run(pattern), rest),
        forall|b: u8, more: Pattern| !opens_with(rest, #[trigger] seq![b], more),
    decreases pattern,
{
    match pattern {
        Pattern::Cat(first, more) => match *first {
            Pattern::Class(set) => match only_byte(set) {
                Some(b) => {
                    assert(set == set![b]);
                    let rest = lemma_longest_run(*more);
                    let run = literal_run(pattern);
                    assert(run.drop_first() =~= literal_run(*more));
                    assert(run[0] == b);
                    rest
                },
                None => {
                    assert forall|b: u8, after: Pattern| !opens_with(
                        pattern,
                        #[trigger] seq![b],
                        after,
                    ) by {
                        assert(seq![b][0] == b);
                        assert(set != set![b]);
                    }
                    pattern
                },
            },
            _ => pattern,
        },
        _ => pattern,
    }
}

/// Every match of a pattern begins with its literal.
pub proof fn matches_begin_with_the_literal(pattern: Pattern, input: Seq<u8>, s: int, e: int)
    requires
        0 <= s <= input.len(),
        spells(pattern, input, s, e),
    ensures
        occurs_at(input, literal_prefix(pattern), s),
        s + literal_prefix(pattern).len() <= e <= input.len(),
{
    matches_lie_within(pattern, input, s, e);
    let tree = choose|tree: Tree| shows(tree, pattern, input, s, e);
    lemma_literal_shown(tree, pattern, input, s, e);
    if let Pattern::Class(set) = pattern {
        if let Some(b) = only_byte(set) {
            assert(set == set![b]);
            assert(input.subrange(s, s + 1) =~= seq![b]);
        } else {
            assert(input.subrange(s, s) =~= Seq::empty());
        }
    }
}

#[verifier::spinoff_prover]
#[verifier::rlimit(40)]
proof fn lemma_literal_shown(tree: Tree, pattern: Pattern, input: Seq<u8>, s: int, e: int)
    requires
        0 <= s <= input.len(),
        shows(tree, pattern, input, s, e),
    ensures
        occurs_at(input, literal_run(pattern), s),
        s + literal_run(pattern).len() <= e,
    decreases tree,
{
    assert(spells(pattern, input, s, e));
    matches_lie_within(pattern, input, s, e);
    assert(input.subrange(s, s) =~= Seq::empty());
    if let (Pattern::Cat(first, more), Tree::Pair(one, m, t)) = (pattern, tree) {
        if let Pattern::Class(set) = *first {
            if let Some(b) = only_byte(set) {
                assert(set == set![b]);
                assert(shows(*one, *first, input, s, m));
                assert(m == s + 1 && input[s] == b);
                lemma_literal_shown(*t, *more, input, m, e);
                let run = literal_run(*more);
                assert(input.subrange(s, s + 1 + run.len()) =~= seq![b] + input.subrange(
                    m,
                    m + run.len(),
                ));
            }
        }
    }
}

}
