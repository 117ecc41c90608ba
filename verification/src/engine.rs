//! The matchers behind one contract.
use crate::agreement::backtracking_prefers_alike;
use crate::ast::{Pattern, Regex};
use crate::automaton::{lemma_search_grows, preferred_end};
use crate::language::{machine_is_exact, spells};
use crate::lazy_dfa;
use crate::lockstep::vm_find;
use crate::naive::{self, backtrack_end, backtrack_matches};
use crate::prefilter;
use crate::scan::{
    all_matches, ends_within, in_order, leftmost, lemma_leftmost_first, lemma_leftmost_within,
    matches_are_found, matches_are_in_order, no_match_is_missed, ranges, Span,
};
use crate::text::same_text;
use crate::thompson::{self, program_of, vm_matches};
use vstd::prelude::*;

verus! {

/// Identifies a `find_all` implementation.
#[derive(Clone, Copy, Debug, PartialEq, Eq, Structural)]
pub enum Impl {
    Naive,
    Thompson,
    Prefilter,
    LazyDfa,
}

/// The matches that `matcher` finds.
pub open spec fn matches_of(matcher: Impl, pattern: Pattern, input: Seq<u8>) -> Seq<(int, int)> {
    match matcher {
        Impl::Naive => backtrack_matches(pattern, input),
        Impl::Thompson | Impl::Prefilter | Impl::LazyDfa => vm_matches(pattern, input),
    }
}

/// The matcher that a name selects. The lazily built automaton is not selected by name.
pub open spec fn impl_named(name: Seq<char>) -> Option<Impl> {
    if name == "naive"@ {
        Some(Impl::Naive)
    } else if name == "thompson"@ {
        Some(Impl::Thompson)
    } else if name == "prefilter"@ {
        Some(Impl::Prefilter)
    } else {
        None
    }
}

impl Impl {
    /// The name of the matcher.
    pub open spec fn name(self) -> Seq<char> {
        match self {
            Impl::Naive => "naive"@,
            Impl::Thompson => "thompson"@,
            Impl::Prefilter => "prefilter"@,
            Impl::LazyDfa => "lazy_dfa"@,
        }
    }

    pub fn parse(name: &str) -> (matcher: Result<Self, String>)
        ensures
            match matcher {
                Ok(m) => impl_named(name@) == Some(m),
                Err(e) => impl_named(name@) is None && e@ == "unknown impl `"@ + name@
                    + "` (expected naive|thompson|prefilter)"@,
            },
    {
        if same_text(name, "naive") {
            Ok(Self::Naive)
        } else if same_text(name, "thompson") {
            Ok(Self::Thompson)
        } else if same_text(name, "prefilter") {
            Ok(Self::Prefilter)
        } else {
            Err(
                "unknown impl `".to_owned().concat(name).concat(
                    "` (expected naive|thompson|prefilter)",
                ),
            )
        }
    }

    pub fn as_str(self) -> (name: &'static str)
        ensures
            name@ == self.name(),
    {
        match self {
            Self::Naive => "naive",
            Self::Thompson => "thompson",
            Self::Prefilter => "prefilter",
            Self::LazyDfa => "lazy_dfa",
        }
    }

    /// Append all non-overlapping leftmost-first matches of `re` in `input`.
    pub fn find_all(self, re: &Regex, input: &[u8], out: &mut Vec<Span>)
        ensures
            ranges(final(out)@) == ranges(old(out)@) + matches_of(self, re.ast@, input@),
    {
        proof {
            matchers_agree(self, Impl::Thompson, re.ast@, input@);
        }
        match self {
            Self::Naive => naive::find_all(re, input, out),
            Self::Thompson => thompson::find_all(re, input, out),
            Self::Prefilter => prefilter::find_all(re, input, out),
            Self::LazyDfa => lazy_dfa::find_all(re, input, out),
        }
    }
}

/// Append all non-overlapping leftmost-first matches, found by backtracking.
pub fn find_all(re: &Regex, input: &[u8], out: &mut Vec<Span>)
    ensures
        ranges(final(out)@) == ranges(old(out)@) + matches_of(Impl::Naive, re.ast@, input@),
{
    Impl::Naive.find_all(re, input, out);
}

/// The name of a matcher selects it, but for the matcher that is not selected by name.
pub proof fn names_select(matcher: Impl)
    ensures
        impl_named(matcher.name()) == (if matcher == Impl::LazyDfa {
            None
        } else {
            Some(matcher)
        }),
        matcher.name() == "naive"@ <==> matcher == Impl::Naive,
        matcher.name() == "thompson"@ <==> matcher == Impl::Thompson,
        matcher.name() == "prefilter"@ <==> matcher == Impl::Prefilter,
        matcher.name() == "lazy_dfa"@ <==> matcher == Impl::LazyDfa,
{
    reveal_strlit("naive");
    reveal_strlit("thompson");
    reveal_strlit("prefilter");
    reveal_strlit("lazy_dfa");
    assert("naive"@.len() == 5);
    assert("thompson"@.len() == 8);
    assert("prefilter"@.len() == 9);
    assert("lazy_dfa"@.len() == 8);
    assert("thompson"@[0] != "lazy_dfa"@[0]);
}

/// All matchers find the same matches, of every pattern in every input.
pub proof fn matchers_agree(a: Impl, b: Impl, pattern: Pattern, input: Seq<u8>)
    ensures
        matches_of(a, pattern, input) == matches_of(b, pattern, input),
{
    naive::lemma_backtrack_matches(pattern, input);
}

/// A run of the virtual machine that begins at `scan` only ends where backtracking ends, or
/// finds nothing where backtracking finds nothing.
pub proof fn anchored_runs_end_alike(pattern: Pattern, input: Seq<u8>, scan: int)
    requires
        0 <= scan <= input.len(),
    ensures
        vm_find(program_of(pattern), input, scan, false) == (match backtrack_end(
            pattern,
            input,
            scan,
        ) {
            Some(end) => Some((scan, end)),
            None => None,
        }),
{
    backtracking_prefers_alike(program_of(pattern), input, 0, scan);
}

/// The ends that a matcher comes to lie in the input.
proof fn lemma_ends_within(pattern: Pattern, input: Seq<u8>)
    ensures
        ends_within(
            |start: int| preferred_end(program_of(pattern), input, start),
            input.len() as int,
        ),
{
    let len = input.len() as int;
    let end_at = |start: int| preferred_end(program_of(pattern), input, start);
    assert forall|start: int| 0 <= start <= len implies match #[trigger] end_at(start) {
        Some(end) => start <= end <= len,
        None => true,
    } by {
        lemma_search_grows(program_of(pattern), input, seq![(0int, start)], Set::empty(), start);
    }
}

/// What any matcher finds lies in the input, one match behind the other: none overlaps
/// another, and no empty one stands right at the end of another.
pub proof fn matches_do_not_overlap(matcher: Impl, pattern: Pattern, input: Seq<u8>)
    ensures
        in_order(matches_of(matcher, pattern, input), input.len() as int),
{
    lemma_ends_within(pattern, input);
    matchers_agree(matcher, Impl::Thompson, pattern, input);
    matches_are_in_order(
        |start: int| preferred_end(program_of(pattern), input, start),
        input.len() as int,
    );
}

/// What any matcher finds is a match of the pattern, and where there is a match at all it
/// finds something.
pub proof fn matches_are_exact(matcher: Impl, pattern: Pattern, input: Seq<u8>)
    ensures
        forall|i: int|
            0 <= i < matches_of(matcher, pattern, input).len() ==> {
                let span = #[trigger] matches_of(matcher, pattern, input)[i];
                spells(pattern, input, span.0, span.1)
            },
        forall|s: int, e: int|
            0 <= s <= input.len() && #[trigger] spells(pattern, input, s, e) ==> matches_of(
                matcher,
                pattern,
                input,
            ).len() > 0,
{
    let len = input.len() as int;
    let end_at = |start: int| preferred_end(program_of(pattern), input, start);
    let found = all_matches(end_at, len);
    lemma_ends_within(pattern, input);
    matches_are_found(end_at, len);
    matches_do_not_overlap(matcher, pattern, input);
    matchers_agree(matcher, Impl::Thompson, pattern, input);
    assert(found == matches_of(matcher, pattern, input));
    assert forall|i: int| 0 <= i < found.len() implies ({
        let span = #[trigger] found[i];
        spells(pattern, input, span.0, span.1)
    }) by {
        let span = found[i];
        assert(0 <= span.0 <= span.1 <= len);
        assert(end_at(span.0) == Some(span.1));
        machine_is_exact(pattern, input, span.0);
    }
    assert forall|s: int, e: int| 0 <= s <= len && #[trigger] spells(
        pattern,
        input,
        s,
        e,
    ) implies found.len() > 0 by {
        machine_is_exact(pattern, input, s);
        assert(end_at(s) is Some);
    }
}

/// No match is missed: wherever the pattern matches, the matcher found a match that starts
/// there, or is inside a match that was found, or an empty match would stand right at the end
/// of one.
#[verifier::spinoff_prover]
#[verifier::rlimit(40)]
pub proof fn every_start_is_accounted_for(
    matcher: Impl,
    pattern: Pattern,
    input: Seq<u8>,
    s: int,
    e: int,
)
    requires
        0 <= s <= input.len(),
        spells(pattern, input, s, e),
    ensures
        exists|i: int|
            0 <= i < matches_of(matcher, pattern, input).len() && {
                let span = #[trigger] matches_of(matcher, pattern, input)[i];
                ||| span.0 == s
                ||| span.0 < s < span.1
                ||| span.1 == s && spells(pattern, input, s, s)
            },
{
    let len = input.len() as int;
    let end_at = |start: int| preferred_end(program_of(pattern), input, start);
    let found = all_matches(end_at, len);
    lemma_ends_within(pattern, input);
    matchers_agree(matcher, Impl::Thompson, pattern, input);
    machine_is_exact(pattern, input, s);
    assert(end_at(s) is Some);
    no_match_is_missed(end_at, len, s);
    let end = end_at(s)->0;
    let i = choose|i: int|
        0 <= i < found.len() && {
            ||| #[trigger] found[i] == (s, end)
            ||| found[i].0 < s < found[i].1
            ||| s == end && found[i].1 == s
        };
    assert(found[i] == matches_of(matcher, pattern, input)[i]);
}

/// A run of the virtual machine from `scan` finds a match with the least start at or behind
/// it, or one right at it if it must begin there; and it finds none only if there is none.
#[verifier::spinoff_prover]
#[verifier::rlimit(40)]
pub proof fn runs_find_leftmost_matches(pattern: Pattern, input: Seq<u8>, scan: int)
    requires
        0 <= scan <= input.len(),
    ensures
        match vm_find(program_of(pattern), input, scan, true) {
            Some((start, end)) => {
                &&& scan <= start <= end <= input.len()
                &&& spells(pattern, input, start, end)
                &&& forall|s: int, e: int|
                    scan <= s < start ==> !(#[trigger] spells(pattern, input, s, e))
            },
            None => forall|s: int, e: int|
                scan <= s <= input.len() ==> !(#[trigger] spells(pattern, input, s, e)),
        },
        match vm_find(program_of(pattern), input, scan, false) {
            Some((start, end)) => start == scan && spells(pattern, input, start, end),
            None => forall|e: int| !(#[trigger] spells(pattern, input, scan, e)),
        },
{
    let len = input.len() as int;
    let end_at = |start: int| preferred_end(program_of(pattern), input, start);
    lemma_ends_within(pattern, input);
    lemma_leftmost_within(end_at, len, scan);
    assert forall|s: int, e: int|
        scan <= s <= len && #[trigger] spells(pattern, input, s, e) implies leftmost(
        end_at,
        len,
        scan,
    ) matches Some((first, _)) && first <= s by {
        machine_is_exact(pattern, input, s);
        assert(end_at(s) is Some);
        lemma_leftmost_first(end_at, len, scan, s);
    }
    if let Some((start, end)) = leftmost(end_at, len, scan) {
        machine_is_exact(pattern, input, start);
    }
    machine_is_exact(pattern, input, scan);
}

}
