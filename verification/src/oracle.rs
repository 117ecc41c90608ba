//! Reference spans from the `regex` crate.
//!
//! Patterns are compiled with `(?-u)` in front, which selects ASCII classes and a
//! byte-based `.`.
use crate::corpus::{golden_views, pair_views, GoldenPair, Pair};
use crate::scan::{ranges, same_spans, Span};
use crate::text::same_text;
use regex::bytes::Regex as ByteRegex;
use vstd::prelude::*;

verus! {

/// `regex::bytes::Regex`, a pattern compiled by the `regex` crate.
#[verifier::external_type_specification]
#[verifier::external_body]
pub struct ExByteRegex(ByteRegex);

/// The text of the error with which `regex::bytes::Regex::new` refuses a pattern; none if
/// it accepts it.
pub uninterp spec fn regex_error(pattern: Seq<char>) -> Option<Seq<char>>;

/// The starts and ends of what `regex::bytes::Regex::find_iter` yields for an accepted
/// pattern and a haystack.
pub uninterp spec fn regex_spans(pattern: Seq<char>, input: Seq<u8>) -> Seq<(int, int)>;

/// A pattern that the `regex` crate has compiled. A value is made by `compile_pattern`
/// only, so that `compiled` is what the crate makes of `source`.
pub struct CompiledPattern {
    source: String,
    compiled: ByteRegex,
}

impl CompiledPattern {
    /// The text that was compiled.
    pub closed spec fn text(&self) -> Seq<char> {
        self.source@
    }
}

/// `regex::bytes::Regex::new`: compiles `source`, or says why not.
#[verifier::external_body]
fn compile_pattern(source: &str) -> (re: Result<CompiledPattern, String>)
    ensures
        match re {
            Ok(r) => regex_error(source@) is None && r.text() == source@,
            Err(e) => regex_error(source@) == Some(e@),
        },
{
    match ByteRegex::new(source) {
        Ok(compiled) => Ok(CompiledPattern { source: source.to_owned(), compiled }),
        Err(error) => Err(error.to_string()),
    }
}

/// `regex::bytes::Regex::find_iter`: the successive non-overlapping matches of the
/// pattern in `input`, from the start of the input to its end.
#[verifier::external_body]
fn find_spans(re: &CompiledPattern, input: &[u8]) -> (spans: Vec<Span>)
    ensures
        ranges(spans@) == regex_spans(re.text(), input@),
        lie_apart(ranges(spans@), input@.len() as int),
{
    re.compiled.find_iter(input).map(|m| Span { start: m.start(), end: m.end() }).collect()
}

/// The spans lie in an input of length `len`, one behind the other.
pub open spec fn lie_apart(spans: Seq<(int, int)>, len: int) -> bool {
    &&& forall|i: int| 0 <= i < spans.len() ==> 0 <= (#[trigger] spans[i]).0 <= spans[i].1 <= len
    &&& forall|i: int, j: int|
        0 <= i < j < spans.len() ==> (#[trigger] spans[i]).1 <= (#[trigger] spans[j]).0
}

/// The pattern as it is compiled: with Unicode off.
pub open spec fn byte_mode(pattern: Seq<char>) -> Seq<char> {
    "(?-u)"@ + pattern
}

/// Compile a pattern in byte mode. What it is refused with is named after `who`.
pub(crate) fn compile_in_byte_mode(who: &str, pattern: &str) -> (re: Result<
    CompiledPattern,
    String,
>)
    ensures
        match re {
            Ok(r) => regex_error(byte_mode(pattern@)) is None && r.text() == byte_mode(pattern@),
            Err(e) => regex_error(byte_mode(pattern@)) matches Some(why) && e@ == who@
                + " rejected pattern `"@ + pattern@ + "`: "@ + why,
        },
{
    let source = "(?-u)".to_owned().concat(pattern);
    match compile_pattern(source.as_str()) {
        Ok(re) => Ok(re),
        Err(why) => Err(
            who.to_owned().concat(" rejected pattern `").concat(pattern).concat("`: ").concat(
                why.as_str(),
            ),
        ),
    }
}

/// The spans of a compiled pattern.
pub(crate) fn spans_of(re: &CompiledPattern, input: &[u8]) -> (spans: Vec<Span>)
    ensures
        ranges(spans@) == regex_spans(re.text(), input@),
        lie_apart(ranges(spans@), input@.len() as int),
{
    find_spans(re, input)
}

/// The reference spans of a pattern in an input, or why there are none.
pub open spec fn oracle_outcome(pattern: Seq<char>, input: Seq<u8>) -> Result<
    Seq<(int, int)>,
    Seq<char>,
> {
    match regex_error(byte_mode(pattern)) {
        None => Ok(regex_spans(byte_mode(pattern), input)),
        Some(why) => Err("oracle"@ + " rejected pattern `"@ + pattern + "`: "@ + why),
    }
}

/// Compute the reference non-overlapping leftmost-first spans for one pair.
pub fn oracle_spans(pattern: &str, input: &[u8]) -> (spans: Result<Vec<Span>, String>)
    ensures
        match spans {
            Ok(s) => oracle_outcome(pattern@, input@) == Ok::<Seq<(int, int)>, Seq<char>>(
                ranges(s@),
            ) && lie_apart(ranges(s@), input@.len() as int),
            Err(e) => oracle_outcome(pattern@, input@) == Err::<Seq<(int, int)>, Seq<char>>(e@),
        },
{
    match compile_in_byte_mode("oracle", pattern) {
        Ok(re) => Ok(spans_of(&re, input)),
        Err(e) => Err(e),
    }
}

/// The golden pairs of the first `n` of `pairs`, or the first refusal.
pub open spec fn goldens_of(pairs: Seq<(Seq<char>, Seq<u8>)>, n: int) -> Result<
    Seq<(Seq<char>, Seq<u8>, Seq<(int, int)>)>,
    Seq<char>,
>
    decreases n,
{
    if n <= 0 {
        Ok(Seq::empty())
    } else {
        match goldens_of(pairs, n - 1) {
            Err(e) => Err(e),
            Ok(before) => match oracle_outcome(pairs[n - 1].0, pairs[n - 1].1) {
                Err(e) => Err(e),
                Ok(spans) => Ok(before.push((pairs[n - 1].0, pairs[n - 1].1, spans))),
            },
        }
    }
}

/// Where one pair is refused, the corpus is.
proof fn lemma_refused(pairs: Seq<(Seq<char>, Seq<u8>)>, i: int, n: int, e: Seq<char>)
    requires
        i <= n,
        goldens_of(pairs, i) == Err::<Seq<(Seq<char>, Seq<u8>, Seq<(int, int)>)>, Seq<char>>(e),
    ensures
        goldens_of(pairs, n) == Err::<Seq<(Seq<char>, Seq<u8>, Seq<(int, int)>)>, Seq<char>>(e),
    decreases n - i,
{
    if i < n {
        lemma_refused(pairs, i, n - 1, e);
    }
}

/// Lift a corpus to golden vectors by computing the reference spans of each pair.
pub fn golden_for(pairs: &[Pair]) -> (golden: Result<Vec<GoldenPair>, String>)
    ensures
        match golden {
            Ok(g) => goldens_of(pair_views(pairs@), pairs@.len() as int) == Ok::<
                Seq<(Seq<char>, Seq<u8>, Seq<(int, int)>)>,
                Seq<char>,
            >(golden_views(g@)),
            Err(e) => goldens_of(pair_views(pairs@), pairs@.len() as int) == Err::<
                Seq<(Seq<char>, Seq<u8>, Seq<(int, int)>)>,
                Seq<char>,
            >(e@),
        },
{
    let ghost views = pair_views(pairs@);
    let mut golden: Vec<GoldenPair> = Vec::new();
    let mut i: usize = 0;
    proof {
        assert(golden_views(golden@) =~= Seq::empty());
    }
    while i < pairs.len()
        invariant
            i <= pairs.len(),
            views == pair_views(pairs@),
            goldens_of(views, i as int) == Ok::<
                Seq<(Seq<char>, Seq<u8>, Seq<(int, int)>)>,
                Seq<char>,
            >(golden_views(golden@)),
        decreases pairs.len() - i,
    {
        let ghost was = golden_views(golden@);
        let pair = &pairs[i];
        assert(views[i as int] == pair@);
        match oracle_spans(pair.pattern.as_str(), pair.input.as_slice()) {
            Ok(spans) => {
                let lifted = golden_pair(pair, spans);
                golden.push(lifted);
                assert(golden_views(golden@) =~= was.push(lifted@));
            },
            Err(e) => {
                proof {
                    lemma_refused(views, i + 1, pairs@.len() as int, e@);
                }
                return Err(e);
            },
        }
        i += 1;
    }
    Ok(golden)
}

/// A pair together with its spans.
pub fn golden_pair(pair: &Pair, spans: Vec<Span>) -> (golden: GoldenPair)
    ensures
        golden@ == (pair@.0, pair@.1, ranges(spans@)),
{
    let mut input: Vec<u8> = Vec::new();
    input.extend_from_slice(pair.input.as_slice());
    assert(input@ =~= pair.input@);
    GoldenPair { pattern: pair.pattern.clone(), input, spans }
}

fn same_bytes(a: &Vec<u8>, b: &Vec<u8>) -> (same: bool)
    ensures
        same == (a@ == b@),
{
    if a.len() != b.len() {
        return false;
    }
    let mut i: usize = 0;
    while i < a.len()
        invariant
            i <= a.len() == b.len(),
            forall|j: int| 0 <= j < i ==> #[trigger] a@[j] == b@[j],
        decreases a.len() - i,
    {
        if a[i] != b[i] {
            return false;
        }
        i += 1;
    }
    assert(a@ =~= b@);
    true
}

/// Whether golden vectors that were written are those that were computed afresh.
pub open spec fn vouched(
    written: Seq<(Seq<char>, Seq<u8>, Seq<(int, int)>)>,
    fresh: Seq<(Seq<char>, Seq<u8>, Seq<(int, int)>)>,
) -> bool {
    written == fresh
}

/// Compare golden vectors that were written with others that were computed afresh.
pub fn self_check(written: &Vec<GoldenPair>, fresh: &Vec<GoldenPair>) -> (same: bool)
    ensures
        same == vouched(golden_views(written@), golden_views(fresh@)),
        same == (golden_views(written@) == golden_views(fresh@)),
{
    let ghost a = golden_views(written@);
    let ghost b = golden_views(fresh@);
    if written.len() != fresh.len() {
        assert(a.len() != b.len());
        return false;
    }
    let mut i: usize = 0;
    while i < written.len()
        invariant
            i <= written.len() == fresh.len(),
            a == golden_views(written@),
            b == golden_views(fresh@),
            forall|j: int| 0 <= j < i ==> #[trigger] a[j] == b[j],
        decreases written.len() - i,
    {
        assert(a[i as int] == written@[i as int]@);
        assert(b[i as int] == fresh@[i as int]@);
        if !same_text(written[i].pattern.as_str(), fresh[i].pattern.as_str()) || !same_bytes(
            &written[i].input,
            &fresh[i].input,
        ) || !same_spans(&written[i].spans, &fresh[i].spans) {
            return false;
        }
        i += 1;
    }
    assert(a =~= b);
    true
}

/// Golden vectors are computed if and only if the reference accepts every pattern in byte
/// mode; and there is one for each pair, in their order, with the pair and the spans that the
/// reference finds in it.
pub proof fn golden_vectors_are_of_their_pairs(pairs: Seq<(Seq<char>, Seq<u8>)>, n: int)
    requires
        0 <= n <= pairs.len(),
    ensures
        goldens_of(pairs, n) is Ok <==> forall|i: int|
            0 <= i < n ==> regex_error("(?-u)"@ + (#[trigger] pairs[i]).0) is None,
        goldens_of(pairs, n) matches Ok(golden) ==> {
            &&& golden.len() == n
            &&& forall|i: int|
                0 <= i < n ==> {
                    let (pattern, input, spans) = #[trigger] golden[i];
                    &&& pattern == pairs[i].0
                    &&& input == pairs[i].1
                    &&& spans == regex_spans("(?-u)"@ + pattern, input)
                }
        },
    decreases n,
{
    if n > 0 {
        golden_vectors_are_of_their_pairs(pairs, n - 1);
        let error = regex_error("(?-u)"@ + pairs[n - 1].0);
        assert(error is Some || error is None);
    }
}

/// Golden vectors are vouched for if and only if there are as many as were computed afresh, and
/// each has the pattern, the input and the spans of the one in its place.
pub proof fn self_checks_look_at_everything(
    written: Seq<(Seq<char>, Seq<u8>, Seq<(int, int)>)>,
    fresh: Seq<(Seq<char>, Seq<u8>, Seq<(int, int)>)>,
)
    ensures
        vouched(written, fresh) <==> {
            &&& written.len() == fresh.len()
            &&& forall|i: int|
                0 <= i < written.len() ==> (#[trigger] written[i]).0 == fresh[i].0 && written[i].1
                    == fresh[i].1 && written[i].2 == fresh[i].2
        },
{
    if written.len() == fresh.len() && (forall|i: int|
        0 <= i < written.len() ==> (#[trigger] written[i]).0 == fresh[i].0 && written[i].1
            == fresh[i].1 && written[i].2 == fresh[i].2) {
        assert forall|i: int| 0 <= i < written.len() implies written[i] == fresh[i] by {
            assert(written[i].0 == fresh[i].0);
        }
        assert(written =~= fresh);
    }
}

}
