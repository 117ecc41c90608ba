//! The `regex` crate as a same-machine baseline.
//!
//! The spans found here are the reference spans by construction, so this is no candidate:
//! it is the ceiling that the candidates are measured against.
use crate::corpus::{pair_views, Pair};
use crate::oracle::{
    byte_mode, compile_in_byte_mode, lie_apart, regex_error, regex_spans, spans_of, CompiledPattern,
};
use crate::scan::{ranges, Span};
use vstd::prelude::*;

verus! {

/// What the first pattern that the crate refuses among the first `n` is refused with.
pub open spec fn refusal(pairs: Seq<(Seq<char>, Seq<u8>)>, n: int) -> Option<Seq<char>>
    decreases n,
{
    if n <= 0 {
        None
    } else {
        match refusal(pairs, n - 1) {
            Some(e) => Some(e),
            None => match regex_error(byte_mode(pairs[n - 1].0)) {
                Some(why) => Some(
                    "regex crate"@ + " rejected pattern `"@ + pairs[n - 1].0 + "`: "@ + why,
                ),
                None => None,
            },
        }
    }
}

proof fn lemma_refusal_stays(pairs: Seq<(Seq<char>, Seq<u8>)>, i: int, n: int)
    requires
        i <= n,
        refusal(pairs, i) is Some,
    ensures
        refusal(pairs, n) == refusal(pairs, i),
    decreases n - i,
{
    if i < n {
        lemma_refusal_stays(pairs, i, n - 1);
    }
}

/// Precompile the pattern of every pair, in byte mode.
pub fn compile_all(pairs: &[Pair]) -> (compiled: Result<Vec<CompiledPattern>, String>)
    ensures
        match compiled {
            Ok(c) => {
                &&& refusal(pair_views(pairs@), pairs@.len() as int) is None
                &&& c@.len() == pairs@.len()
                &&& forall|i: int|
                    0 <= i < c@.len() ==> (#[trigger] c@[i]).text() == byte_mode(
                        pairs@[i].pattern@,
                    )
            },
            Err(e) => refusal(pair_views(pairs@), pairs@.len() as int) == Some(e@),
        },
{
    let ghost views = pair_views(pairs@);
    let mut compiled: Vec<CompiledPattern> = Vec::new();
    let mut i: usize = 0;
    while i < pairs.len()
        invariant
            i <= pairs.len(),
            views == pair_views(pairs@),
            refusal(views, i as int) is None,
            compiled.len() == i,
            forall|j: int|
                0 <= j < i ==> (#[trigger] compiled@[j]).text() == byte_mode(pairs@[j].pattern@),
        decreases pairs.len() - i,
    {
        assert(views[i as int] == pairs@[i as int]@);
        match compile_in_byte_mode("regex crate", pairs[i].pattern.as_str()) {
            Ok(re) => {
                compiled.push(re);
            },
            Err(e) => {
                proof {
                    lemma_refusal_stays(views, i + 1, pairs@.len() as int);
                }
                return Err(e);
            },
        }
        i += 1;
    }
    Ok(compiled)
}

/// The spans of one compiled pattern, in place of what `out` held.
pub fn find_all(re: &CompiledPattern, input: &[u8], out: &mut Vec<Span>)
    ensures
        ranges(final(out)@) == regex_spans(re.text(), input@),
        lie_apart(ranges(final(out)@), input@.len() as int),
{
    *out = spans_of(re, input);
}

/// How many bytes the spans cover, one after the other.
pub open spec fn covered(spans: Seq<(int, int)>) -> int
    decreases spans.len(),
{
    if spans.len() == 0 {
        0
    } else {
        covered(spans.drop_last()) + spans.last().1 - spans.last().0
    }
}

/// Spans in order cover no more than what lies before their last end.
proof fn lemma_covered(spans: Seq<(int, int)>, len: int)
    requires
        lie_apart(spans, len),
    ensures
        0 <= covered(spans),
        spans.len() > 0 ==> covered(spans) <= spans.last().1,
    decreases spans.len(),
{
    if spans.len() > 0 {
        let first = spans.drop_last();
        assert(lie_apart(first, len)) by {
            assert(forall|i: int| 0 <= i < first.len() ==> first[i] == spans[i]);
        }
        lemma_covered(first, len);
        let n = spans.len() - 1;
        assert(0 <= spans[n].0 <= spans[n].1);
        if first.len() > 0 {
            assert(spans[n - 1].1 <= spans[n].0);
        }
    }
}

/// The bytes that matches cover.
pub fn covered_bytes(spans: &Vec<Span>) -> (total: u64)
    requires
        exists|len: int| lie_apart(ranges(spans@), len) && len <= u64::MAX,
    ensures
        total == covered(ranges(spans@)),
{
    let ghost views = ranges(spans@);
    let ghost len = choose|len: int| lie_apart(ranges(spans@), len) && len <= u64::MAX;
    let mut total: u64 = 0;
    let mut i: usize = 0;
    proof {
        assert(views.take(0) =~= Seq::empty());
    }
    while i < spans.len()
        invariant
            i <= spans.len(),
            views == ranges(spans@),
            lie_apart(views, len),
            len <= u64::MAX,
            total == covered(views.take(i as int)),
        decreases spans.len() - i,
    {
        let span = spans[i];
        proof {
            let more = views.take(i + 1);
            assert(more.drop_last() =~= views.take(i as int));
            assert(more.last() == span@);
            assert(views[i as int] == span@);
            assert(lie_apart(more, len)) by {
                assert(forall|j: int| 0 <= j < more.len() ==> more[j] == views[j]);
            }
            lemma_covered(more, len);
            assert(0 <= views[i as int].0 <= views[i as int].1 <= len);
        }
        total += (span.end - span.start) as u64;
        i += 1;
    }
    proof {
        assert(views.take(views.len() as int) =~= views);
    }
    total
}

/// Scan one pair by index, and return the bytes that its matches cover.
pub fn scan_pair(
    compiled: &[CompiledPattern],
    pairs: &[Pair],
    idx: usize,
    out: &mut Vec<Span>,
) -> (output_bytes: u64)
    requires
        idx < compiled@.len(),
        idx < pairs@.len(),
    ensures
        ranges(final(out)@) == regex_spans(
            compiled@[idx as int].text(),
            pairs@[idx as int].input@,
        ),
        output_bytes == covered(ranges(final(out)@)),
{
    let len: usize = pairs[idx].input.len();
    find_all(&compiled[idx], pairs[idx].input.as_slice(), out);
    assert(len <= u64::MAX);
    assert(lie_apart(ranges(out@), pairs@[idx as int].input@.len() as int));
    covered_bytes(out)
}

/// What spans cover is the sum of what each covers: from its start to its end.
pub proof fn coverage_adds_up(a: Seq<(int, int)>, b: Seq<(int, int)>, start: int, end: int)
    ensures
        covered(Seq::empty()) == 0,
        covered(seq![(start, end)]) == end - start,
        covered(a + b) == covered(a) + covered(b),
    decreases b.len(),
{
    let one = seq![(start, end)];
    assert(one.drop_last() =~= Seq::empty());
    assert(covered(one.drop_last()) == 0);
    if b.len() == 0 {
        assert(a + b =~= a);
    } else {
        coverage_adds_up(a, b.drop_last(), start, end);
        assert((a + b).drop_last() =~= a + b.drop_last());
        assert((a + b).last() == b.last());
    }
}

/// No pattern is refused if and only if the crate accepts each; else the first that it does
/// not accept is complained about.
pub proof fn first_refusals_are_first(pairs: Seq<(Seq<char>, Seq<u8>)>, n: int)
    requires
        0 <= n <= pairs.len(),
    ensures
        refusal(pairs, n) is None <==> forall|i: int|
            0 <= i < n ==> regex_error(byte_mode((#[trigger] pairs[i]).0)) is None,
        forall|i: int|
            0 <= i < n && regex_error(byte_mode((#[trigger] pairs[i]).0)) is Some && (forall|j: int|
                0 <= j < i ==> regex_error(byte_mode((#[trigger] pairs[j]).0)) is None) ==> refusal(
                pairs,
                n,
            ) == Some(
                "regex crate"@ + " rejected pattern `"@ + pairs[i].0 + "`: "@ + regex_error(
                    byte_mode(pairs[i].0),
                )->0,
            ),
    decreases n,
{
    if n > 0 {
        first_refusals_are_first(pairs, n - 1);
        assert(regex_error(byte_mode(pairs[n - 1].0)) is Some || regex_error(
            byte_mode(pairs[n - 1].0),
        ) is None);
    }
}

}
