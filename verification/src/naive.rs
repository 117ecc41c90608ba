//! Reference backtracking matcher.
//!
//! Each node is matched together with the rest of the pattern behind it, and where a
//! path fails the next alternative is tried (such as one repetition fewer). The first
//! end found in order of priority is the leftmost-first greedy match. The time is
//! exponential on some inputs.
//!
//! A path that has come to a choice does not come back to it before it has consumed a
//! byte. This keeps a repetition that consumes nothing, as in `(a*)*`, from going on
//! forever, and keeps it from being followed up. A choice is known by the counter of the
//! instruction that it compiles to.
use crate::agreement::{backtracking_prefers_alike, tried};
use crate::ast::{alt_of, cat_of, may_be_empty, Node, Pattern, Regex};
use crate::automaton::{in_prog, lemma_room, preferred_end, room, Op};
use crate::lockstep::lemma_vm_find_valid;
use crate::scan::{all_matches, end_pos, found, leftmost, ranges, scan_matches, Span};
use crate::thompson::{
    compile, holds, lemma_compile, lemma_holds_parts, program_of, size, vm_matches, Program,
};
use vstd::prelude::*;

verus! {

/// The end of the match of `pattern` at `start` that backtracking comes to first.
pub open spec fn backtrack_end(pattern: Pattern, input: Seq<u8>, start: int) -> Option<int> {
    tried(program_of(pattern), input, 0, start, Set::empty())
}

/// The matches that backtracking finds in `input`.
pub open spec fn backtrack_matches(pattern: Pattern, input: Seq<u8>) -> Seq<(int, int)> {
    all_matches(|start: int| backtrack_end(pattern, input, start), input.len() as int)
}

/// Backtracking finds what the virtual machine finds.
pub proof fn lemma_backtrack_matches(pattern: Pattern, input: Seq<u8>)
    ensures
        forall|start: int| #[trigger]
            backtrack_end(pattern, input, start) == preferred_end(
                program_of(pattern),
                input,
                start,
            ),
        backtrack_matches(pattern, input) == vm_matches(pattern, input),
{
    let slow = |start: int| backtrack_end(pattern, input, start);
    let fast = |start: int| preferred_end(program_of(pattern), input, start);
    assert forall|start: int| #[trigger] slow(start) == fast(start) by {
        backtracking_prefers_alike(program_of(pattern), input, 0, start);
    }
    assert forall|start: int| #[trigger]
        backtrack_end(pattern, input, start) == preferred_end(
            program_of(pattern),
            input,
            start,
        ) by {
        assert(slow(start) == fast(start));
    }
    assert(slow =~= fast);
}

/// What is still to be matched behind a node.
enum Rest<'a> {
    /// Nothing: the match ends here.
    Done,
    /// The parts of a concatenation from the given index on, whose code is at the given
    /// counter.
    Parts(&'a Vec<Node>, usize, usize, &'a Rest<'a>),
    /// What is behind an alternation, from the end of one of its branches on.
    Join(Ghost<int>, &'a Rest<'a>),
    /// More repetitions of `*`, whose code is at the given counter and whose body consumes
    /// something.
    Loop(&'a Node, usize, &'a Rest<'a>),
    /// More repetitions behind one, whose code is at the first counter. The choice whether
    /// there are more is at the second.
    Again(&'a Node, usize, usize, &'a Rest<'a>),
}

/// The counter at which `rest` goes on.
spec fn entry(prog: Seq<Op>, rest: Rest) -> int {
    match rest {
        Rest::Done => prog.len() - 1,
        Rest::Parts(_, _, base, _) => base as int,
        Rest::Join(at, _) => at@,
        Rest::Loop(inner, base, _) => base + size(inner@) + 1,
        Rest::Again(_, _, fork, _) => fork as int,
    }
}

/// Whether `rest` is what `prog` goes on with.
spec fn fits(prog: Seq<Op>, rest: Rest) -> bool
    decreases rest,
{
    match rest {
        Rest::Done => prog.len() > 0 && prog[prog.len() - 1] is Match,
        Rest::Parts(parts, idx, base, k) => {
            let pattern = cat_of(parts@, idx as int);
            &&& holds(prog, pattern, base as int)
            &&& entry(prog, *k) == base + size(pattern)
            &&& fits(prog, *k)
        },
        Rest::Join(at, k) => {
            &&& in_prog(prog, at@)
            &&& prog[at@] == Op::Jmp(entry(prog, *k))
            &&& fits(prog, *k)
        },
        Rest::Loop(inner, base, k) => {
            &&& holds(prog, Pattern::Star(Box::new(inner@)), base as int)
            &&& !may_be_empty(inner@)
            &&& entry(prog, *k) == base + size(inner@) + 2
            &&& fits(prog, *k)
        },
        Rest::Again(inner, base, fork, k) => {
            &&& holds(prog, Pattern::Plus(Box::new(inner@)), base as int)
            &&& fork == base + size(inner@)
            &&& entry(prog, *k) == fork + 1
            &&& fits(prog, *k)
        },
    }
}

/// The choices to which a path has come since the last byte.
enum Trail<'a> {
    Fresh,
    Choice(usize, &'a Trail<'a>),
}

impl<'a> Trail<'a> {
    spec fn choices(self) -> Set<int>
        decreases self,
    {
        match self {
            Trail::Fresh => Set::empty(),
            Trail::Choice(pc, before) => before.choices().insert(pc as int),
        }
    }

    /// Whether the path has come to the choice at `pc`.
    fn has(&self, pc: usize) -> (yes: bool)
        ensures
            yes == self.choices().contains(pc as int),
        decreases *self,
    {
        match self {
            Trail::Fresh => false,
            Trail::Choice(last, before) => *last == pc || before.has(pc),
        }
    }
}

/// Whether a path over the counters `path` leads to `pc`: it goes on from each of them, and
/// `trail` are the choices on it.
spec fn leads_to(prog: Seq<Op>, path: Set<int>, trail: Trail, pc: int) -> bool {
    &&& forall|q: int| #[trigger]
        path.contains(q) ==> in_prog(prog, q) && match prog[q] {
            Op::Jmp(t) => t == pc || path.contains(t),
            Op::StartAssert | Op::EndAssert => q + 1 == pc || path.contains(q + 1),
            Op::Split(_, _) => true,
            Op::Byte(_) | Op::Match => false,
        }
    &&& forall|q: int|
        in_prog(prog, q) && prog[q] is Split ==> (#[trigger] path.contains(q)
            <==> trail.choices().contains(q))
}

/// A path that goes on from `pc`, where there is no choice.
proof fn lemma_leads_on(prog: Seq<Op>, path: Set<int>, trail: Trail, pc: int, next: int)
    requires
        leads_to(prog, path, trail, pc),
        in_prog(prog, pc),
        match prog[pc] {
            Op::Jmp(t) => t == next,
            Op::StartAssert | Op::EndAssert => next == pc + 1,
            _ => false,
        },
    ensures
        leads_to(prog, path.insert(pc), trail, next),
        path.contains(pc) ==> path.insert(pc) == path && (path.contains(next) || next == pc),
        !path.contains(pc) ==> room(prog.len() as int, path.insert(pc)) < room(
            prog.len() as int,
            path,
        ),
{
    if path.contains(pc) {
        assert(path.insert(pc) =~= path);
    } else {
        lemma_room(prog.len() as int, path, pc);
    }
}

/// A path that goes on from the choice at `pc`.
proof fn lemma_leads_past(
    prog: Seq<Op>,
    path: Set<int>,
    trail: Trail,
    more: Trail,
    pc: int,
    next: int,
)
    requires
        leads_to(prog, path, trail, pc),
        in_prog(prog, pc),
        prog[pc] is Split,
        !path.contains(pc),
        more.choices() == trail.choices().insert(pc),
    ensures
        leads_to(prog, path.insert(pc), more, next),
        room(prog.len() as int, path.insert(pc)) < room(prog.len() as int, path),
{
    lemma_room(prog.len() as int, path, pc);
    let on = path.insert(pc);
    assert forall|q: int| #[trigger] on.contains(q) implies in_prog(prog, q) && match prog[q] {
        Op::Jmp(t) => t == next || on.contains(t),
        Op::StartAssert | Op::EndAssert => q + 1 == next || on.contains(q + 1),
        Op::Split(_, _) => true,
        Op::Byte(_) | Op::Match => false,
    } by {
        if q != pc {
            assert(path.contains(q));
        }
    }
}

/// How much work a pattern is before it comes to a choice or consumes anything.
spec fn weight(pattern: Pattern) -> nat
    decreases pattern,
{
    match pattern {
        Pattern::Cat(a, b) => weight(*a) + weight(*b) + 2,
        Pattern::Alt(a, b) => weight(*a) + weight(*b) + 1,
        Pattern::Last(p) => weight(*p) + 1,
        Pattern::Star(p) => weight(*p) + 1,
        Pattern::Plus(p) => weight(*p) + 2,
        Pattern::Quest(p) => weight(*p) + 1,
        _ => 1,
    }
}

/// How much work `rest` is before it comes to a choice or consumes anything.
spec fn rest_weight(rest: Rest) -> nat
    decreases rest,
{
    match rest {
        Rest::Done => 0,
        Rest::Parts(parts, idx, _, k) => weight(cat_of(parts@, idx as int)) + rest_weight(*k) + 1,
        Rest::Join(_, k) => rest_weight(*k) + 1,
        Rest::Loop(_, _, _) | Rest::Again(_, _, _, _) => 1,
    }
}

/// How many instructions a node compiles to.
fn code_size(node: &Node) -> (n: usize)
    requires
        size(node@) <= usize::MAX,
    ensures
        n == size(node@),
    decreases *node, 0int,
{
    match node {
        Node::Empty => 0,
        Node::Class(_) | Node::StartAnchor | Node::EndAnchor => 1,
        Node::Concat(parts) => concat_size(parts, 0),
        Node::Alt(branches) => alt_size(branches, 0),
        Node::Star(inner) => code_size(inner) + 2,
        Node::Plus(inner) => code_size(inner) + 1,
        Node::Quest(inner) => code_size(inner) + 1,
    }
}

fn concat_size(parts: &Vec<Node>, i: usize) -> (n: usize)
    requires
        size(cat_of(parts@, i as int)) <= usize::MAX,
    ensures
        n == size(cat_of(parts@, i as int)),
    decreases parts@, parts.len() - i,
{
    if i < parts.len() {
        code_size(&parts[i]) + concat_size(parts, i + 1)
    } else {
        0
    }
}

fn alt_size(branches: &Vec<Node>, i: usize) -> (n: usize)
    requires
        size(alt_of(branches@, i as int)) <= usize::MAX,
    ensures
        n == size(alt_of(branches@, i as int)),
    decreases branches@, branches.len() - i,
{
    if i >= branches.len() {
        1
    } else if i + 1 == branches.len() {
        code_size(&branches[i])
    } else {
        code_size(&branches[i]) + alt_size(branches, i + 1) + 2
    }
}

struct Matcher<'a> {
    input: &'a [u8],
    /// The program that the pattern compiles to.
    prog: Ghost<Seq<Op>>,
}

impl<'a> Matcher<'a> {
    /// Whether the matcher is at `pc` and `pos`, on a path over the counters `path`.
    spec fn is_at(&self, pc: int, pos: int, path: Set<int>, trail: Trail) -> bool {
        &&& 0 <= pos <= self.input@.len()
        &&& self.prog@.len() <= usize::MAX
        &&& leads_to(self.prog@, path, trail, pc)
    }

    /// The end to which backtracking comes first from there.
    spec fn first_end(&self, pc: int, pos: int, path: Set<int>) -> Option<int> {
        tried(self.prog@, self.input@, pc, pos, path)
    }

    /// Match `node` at `pos` with `k` behind it: the first end, in leftmost-first greedy
    /// priority, for which `k` matches too. The code of the node is at `base`.
    fn match_node(
        &self,
        node: &Node,
        base: usize,
        pos: usize,
        k: &Rest,
        trail: &Trail,
        Ghost(path): Ghost<Set<int>>,
    ) -> (end: Option<usize>)
        requires
            self.is_at(base as int, pos as int, path, *trail),
            holds(self.prog@, node@, base as int),
            fits(self.prog@, *k),
            entry(self.prog@, *k) == base + size(node@),
        ensures
            end_pos(end) == self.first_end(base as int, pos as int, path),
        decreases
                self.input.len() - pos,
                room(self.prog@.len() as int, path),
                weight(node@) + rest_weight(*k),
                1int,
    {
        let ghost prog = self.prog@;
        proof {
            lemma_holds_parts(prog, node@, base as int);
        }
        match node {
            Node::Empty => self.resume(k, pos, trail, Ghost(path)),
            Node::Class(class) => {
                if pos < self.input.len() && class.matches(self.input[pos]) {
                    self.resume(k, pos + 1, &Trail::Fresh, Ghost(Set::empty()))
                } else {
                    None
                }
            },
            Node::StartAnchor => {
                if pos == 0 {
                    proof {
                        lemma_leads_on(prog, path, *trail, base as int, base + 1);
                    }
                    self.resume(k, pos, trail, Ghost(path.insert(base as int)))
                } else {
                    None
                }
            },
            Node::EndAnchor => {
                if pos == self.input.len() {
                    proof {
                        lemma_leads_on(prog, path, *trail, base as int, base + 1);
                    }
                    self.resume(k, pos, trail, Ghost(path.insert(base as int)))
                } else {
                    None
                }
            },
            Node::Concat(parts) => self.match_seq(parts, 0, base, pos, k, trail, Ghost(path)),
            Node::Alt(branches) => self.match_alt(branches, 0, base, pos, k, trail, Ghost(path)),
            Node::Star(inner) => self.match_star(inner, base, pos, k, trail, Ghost(path)),
            Node::Plus(inner) => {
                let more = Rest::Again(inner, base, base + code_size(inner), k);
                self.match_node(inner, base, pos, &more, trail, Ghost(path))
            },
            Node::Quest(inner) => {
                if trail.has(base) {
                    return None;
                }
                let on = Trail::Choice(base, trail);
                let ghost way = path.insert(base as int);
                proof {
                    lemma_leads_past(prog, path, *trail, on, base as int, base + 1);
                    lemma_leads_past(
                        prog,
                        path,
                        *trail,
                        on,
                        base as int,
                        base + size(inner@) + 1,
                    );
                }
                let end = self.match_node(inner, base + 1, pos, k, &on, Ghost(way));
                if end.is_some() {
                    end
                } else {
                    self.resume(k, pos, &on, Ghost(way))
                }
            },
        }
    }

    /// Match the parts of a concatenation from the `idx`-th on.
    fn match_seq(
        &self,
        parts: &Vec<Node>,
        idx: usize,
        base: usize,
        pos: usize,
        k: &Rest,
        trail: &Trail,
        Ghost(path): Ghost<Set<int>>,
    ) -> (end: Option<usize>)
        requires
            self.is_at(base as int, pos as int, path, *trail),
            holds(self.prog@, cat_of(parts@, idx as int), base as int),
            fits(self.prog@, *k),
            entry(self.prog@, *k) == base + size(cat_of(parts@, idx as int)),
        ensures
            end_pos(end) == self.first_end(base as int, pos as int, path),
        decreases
                self.input.len() - pos,
                room(self.prog@.len() as int, path),
                weight(cat_of(parts@, idx as int)) + rest_weight(*k),
                0int,
    {
        proof {
            lemma_holds_parts(self.prog@, cat_of(parts@, idx as int), base as int);
        }
        if idx >= parts.len() {
            return self.resume(k, pos, trail, Ghost(path));
        }
        let rest = Rest::Parts(parts, idx + 1, base + code_size(&parts[idx]), k);
        self.match_node(&parts[idx], base, pos, &rest, trail, Ghost(path))
    }

    /// Match one of the branches of an alternation from the `i`-th on, the first one
    /// first.
    fn match_alt(
        &self,
        branches: &Vec<Node>,
        i: usize,
        base: usize,
        pos: usize,
        k: &Rest,
        trail: &Trail,
        Ghost(path): Ghost<Set<int>>,
    ) -> (end: Option<usize>)
        requires
            self.is_at(base as int, pos as int, path, *trail),
            holds(self.prog@, alt_of(branches@, i as int), base as int),
            fits(self.prog@, *k),
            entry(self.prog@, *k) == base + size(alt_of(branches@, i as int)),
        ensures
            end_pos(end) == self.first_end(base as int, pos as int, path),
        decreases
                self.input.len() - pos,
                room(self.prog@.len() as int, path),
                weight(alt_of(branches@, i as int)) + rest_weight(*k),
                0int,
    {
        let ghost prog = self.prog@;
        proof {
            lemma_holds_parts(prog, alt_of(branches@, i as int), base as int);
        }
        if i >= branches.len() {
            return None;
        }
        if i + 1 == branches.len() {
            return self.match_node(&branches[i], base, pos, k, trail, Ghost(path));
        }
        if trail.has(base) {
            return None;
        }
        let on = Trail::Choice(base, trail);
        let first: usize = code_size(&branches[i]);
        let join = Rest::Join(Ghost(base + first + 1), k);
        let ghost way = path.insert(base as int);
        proof {
            lemma_leads_past(prog, path, *trail, on, base as int, base + 1);
            lemma_leads_past(prog, path, *trail, on, base as int, base + first + 2);
        }
        let end = self.match_node(&branches[i], base + 1, pos, &join, &on, Ghost(way));
        if end.is_some() {
            end
        } else {
            self.match_alt(branches, i + 1, base + first + 2, pos, k, &on, Ghost(way))
        }
    }

    /// Greedy `*`: try a repetition first, with more of them behind it, then none.
    fn match_star(
        &self,
        inner: &Node,
        base: usize,
        pos: usize,
        k: &Rest,
        trail: &Trail,
        Ghost(path): Ghost<Set<int>>,
    ) -> (end: Option<usize>)
        requires
            self.is_at(base as int, pos as int, path, *trail),
            holds(self.prog@, Pattern::Star(Box::new(inner@)), base as int),
            fits(self.prog@, *k),
            entry(self.prog@, *k) == base + size(inner@) + 2,
        ensures
            end_pos(end) == self.first_end(base as int, pos as int, path),
        decreases self.input.len() - pos, room(self.prog@.len() as int, path), 0int, 0int,
    {
        let ghost prog = self.prog@;
        proof {
            lemma_holds_parts(prog, Pattern::Star(Box::new(inner@)), base as int);
        }
        if trail.has(base) {
            return None;
        }
        let on = Trail::Choice(base, trail);
        let more = if inner.nullable() {
            Rest::Again(inner, base + 1, base + code_size(inner) + 1, k)
        } else {
            Rest::Loop(inner, base, k)
        };
        let ghost way = path.insert(base as int);
        proof {
            lemma_leads_past(prog, path, *trail, on, base as int, base + 1);
            lemma_leads_past(prog, path, *trail, on, base as int, base + size(inner@) + 2);
        }
        let end = self.match_node(inner, base + 1, pos, &more, &on, Ghost(way));
        if end.is_some() {
            end
        } else {
            self.resume(k, pos, &on, Ghost(way))
        }
    }

    /// Match what is left at `pos`.
    fn resume(
        &self,
        k: &Rest,
        pos: usize,
        trail: &Trail,
        Ghost(path): Ghost<Set<int>>,
    ) -> (end: Option<usize>)
        requires
            self.is_at(entry(self.prog@, *k), pos as int, path, *trail),
            fits(self.prog@, *k),
        ensures
            end_pos(end) == self.first_end(entry(self.prog@, *k), pos as int, path),
        decreases
                self.input.len() - pos,
                room(self.prog@.len() as int, path),
                rest_weight(*k),
                0int,
    {
        let ghost prog = self.prog@;
        match k {
            Rest::Done => Some(pos),
            Rest::Parts(parts, idx, base, k) => self.match_seq(
                parts,
                *idx,
                *base,
                pos,
                k,
                trail,
                Ghost(path),
            ),
            Rest::Join(at, k) => {
                proof {
                    lemma_leads_on(prog, path, *trail, at@, entry(prog, **k));
                }
                self.resume(k, pos, trail, Ghost(path.insert(at@)))
            },
            Rest::Loop(inner, base, behind) => {
                let ghost jump = base + size(inner@) + 1;
                proof {
                    lemma_holds_parts(prog, Pattern::Star(Box::new(inner@)), *base as int);
                    lemma_leads_on(prog, path, *trail, jump, *base as int);
                }
                self.match_star(inner, *base, pos, behind, trail, Ghost(path.insert(jump)))
            },
            Rest::Again(inner, base, fork, behind) => {
                proof {
                    lemma_holds_parts(prog, Pattern::Plus(Box::new(inner@)), *base as int);
                }
                if trail.has(*fork) {
                    return None;
                }
                let on = Trail::Choice(*fork, trail);
                let ghost way = path.insert(*fork as int);
                proof {
                    lemma_leads_past(prog, path, *trail, on, *fork as int, *base as int);
                    lemma_leads_past(prog, path, *trail, on, *fork as int, *fork + 1);
                }
                let end = self.match_node(inner, *base, pos, k, &on, Ghost(way));
                if end.is_some() {
                    end
                } else {
                    self.resume(behind, pos, &on, Ghost(way))
                }
            },
        }
    }

    /// Leftmost match at or after `scan`: try an anchored match at each start.
    fn find_from(&self, ast: &Node, scan: usize) -> (hit: Option<(usize, usize)>)
        requires
            self.prog@ == program_of(ast@),
            self.prog@.len() <= usize::MAX,
        ensures
            found(hit) == leftmost(
                |start: int| backtrack_end(ast@, self.input@, start),
                self.input@.len() as int,
                scan as int,
            ),
    {
        let len: usize = self.input.len();
        let ghost input = self.input@;
        let ghost end_at = |start: int| backtrack_end(ast@, input, start);
        if scan > len {
            return None;
        }
        proof {
            lemma_compile(ast@, 0);
            let prog = program_of(ast@);
            assert forall|i: int| 0 <= i < size(ast@) implies prog[0 + i] == #[trigger] compile(
                ast@,
                0,
            )[i] by {}
            assert(holds(prog, ast@, 0));
        }
        let mut start: usize = scan;
        loop
            invariant
                scan <= start <= len,
                len == self.input.len(),
                input == self.input@,
                self.prog@ == program_of(ast@),
                self.prog@.len() <= usize::MAX,
                self.prog@.len() == size(ast@) + 1,
                holds(self.prog@, ast@, 0),
                end_at == (|start: int| backtrack_end(ast@, input, start)),
                leftmost(end_at, len as int, scan as int) == leftmost(
                    end_at,
                    len as int,
                    start as int,
                ),
            decreases len - start,
        {
            let done = Rest::Done;
            let hit = self.match_node(ast, 0, start, &done, &Trail::Fresh, Ghost(Set::empty()));
            assert(end_at(start as int) == end_pos(hit));
            if let Some(end) = hit {
                return Some((start, end));
            }
            if start == len {
                assert(leftmost(end_at, len as int, len + 1) is None);
                return None;
            }
            start += 1;
        }
    }
}

/// Find all non-overlapping leftmost-first matches of `re` in `input`.
pub fn find_all(re: &Regex, input: &[u8], out: &mut Vec<Span>)
    ensures
        ranges(final(out)@) == ranges(old(out)@) + vm_matches(re.ast@, input@),
{
    // The counters that tell the choices apart are those of the program, so they fit.
    let prog = Program::new(&re.ast);
    let size: usize = prog.insts().len();
    let matcher = Matcher { input, prog: Ghost(prog@) };
    assert(matcher.prog@.len() == size);
    let len: usize = input.len();
    let find_at = |scan: usize| -> (hit: Option<(usize, usize)>)
        ensures
            found(hit) == leftmost(
                |start: int| backtrack_end(re.ast@, input@, start),
                input@.len() as int,
                scan as int,
            ),
        { matcher.find_from(&re.ast, scan) };
    let ghost f = |scan: int|
        leftmost(
            |start: int| backtrack_end(re.ast@, input@, start),
            input@.len() as int,
            scan,
        );
    proof {
        lemma_backtrack_matches(re.ast@, input@);
        assert forall|scan: usize, m: Option<(usize, usize)>|
            #![trigger find_at.ensures((scan,), m)]
            find_at.ensures((scan,), m) && scan <= len implies found(m) == f(scan as int) && (
        m matches Some((start, end)) ==> scan <= start <= end) by {
            lemma_found_valid(re.ast@, input@, scan as int);
        }
    }
    scan_matches(len, find_at, out);
}

/// A match lies at or behind the position from which it is looked for.
proof fn lemma_found_valid(pattern: Pattern, input: Seq<u8>, scan: int)
    requires
        0 <= scan <= input.len(),
    ensures
        leftmost(
            |start: int| backtrack_end(pattern, input, start),
            input.len() as int,
            scan,
        ) matches Some((start, end)) ==> scan <= start <= end <= input.len(),
{
    let slow = |start: int| backtrack_end(pattern, input, start);
    let fast = |start: int| preferred_end(program_of(pattern), input, start);
    lemma_backtrack_matches(pattern, input);
    assert(slow =~= fast);
    lemma_vm_find_valid(program_of(pattern), input, scan);
}

}
