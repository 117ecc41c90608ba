//! Spans, and the scan that turns a single-match search into all matches.
use vstd::prelude::*;

verus! {

/// A half-open byte span `[start, end)` into the input.
#[derive(Clone, Copy, Debug, PartialEq, Eq, Hash, Structural)]
pub struct Span {
    pub start: usize,
    pub end: usize,
}

impl Span {
    pub fn new(start: usize, end: usize) -> (span: Self)
        ensures
            span.start == start,
            span.end == end,
    {
        Self { start, end }
    }
}

impl View for Span {
    type V = (int, int);

    open spec fn view(&self) -> (int, int) {
        (self.start as int, self.end as int)
    }
}

/// The starts and ends of `spans`.
pub open spec fn ranges(spans: Seq<Span>) -> Seq<(int, int)> {
    spans.map_values(|s: Span| s@)
}

/// A found match as a pair of positions.
pub open spec fn found(m: Option<(usize, usize)>) -> Option<(int, int)> {
    match m {
        Some((start, end)) => Some((start as int, end as int)),
        None => None,
    }
}

/// The match with the least start at or after `scan`, where `end_at` gives the end of
/// the preferred match at each start.
pub open spec fn leftmost(end_at: spec_fn(int) -> Option<int>, len: int, scan: int) -> Option<
    (int, int),
>
    decreases len + 1 - scan,
{
    if scan > len {
        None
    } else {
        match end_at(scan) {
            Some(end) => Some((scan, end)),
            None => leftmost(end_at, len, scan + 1),
        }
    }
}

/// How many positions from `scan` up to `len` are left.
pub open spec fn to_go(len: int, scan: int) -> int {
    if scan > len {
        0
    } else {
        len + 1 - scan
    }
}

/// The matches of a scan that stands at `scan` and whose last recorded match ended at
/// `last_end`, where `find_at` gives the next match from each position.
///
/// An empty match right at the end of the match before it is left out. After an empty
/// match the scan goes on one byte further.
pub open spec fn scan_from(
    find_at: spec_fn(int) -> Option<(int, int)>,
    len: int,
    scan: int,
    last_end: Option<int>,
) -> Seq<(int, int)>
    decreases to_go(len, scan),
{
    if scan > len {
        Seq::empty()
    } else {
        match find_at(scan) {
            None => Seq::empty(),
            Some((start, end)) => if start < scan || end < start {
                Seq::empty()
            } else if start == end && last_end == Some(start) {
                scan_from(find_at, len, start + 1, last_end)
            } else {
                seq![(start, end)] + scan_from(
                    find_at,
                    len,
                    if end > start {
                        end
                    } else {
                        end + 1
                    },
                    Some(end),
                )
            },
        }
    }
}

/// All matches in an input of length `len`.
pub open spec fn scan_all(find_at: spec_fn(int) -> Option<(int, int)>, len: int) -> Seq<
    (int, int),
> {
    scan_from(find_at, len, 0, None)
}

/// All non-overlapping matches, where `end_at` gives the end of the preferred match at
/// each start.
pub open spec fn all_matches(end_at: spec_fn(int) -> Option<int>, len: int) -> Seq<(int, int)> {
    scan_all(|scan: int| leftmost(end_at, len, scan), len)
}

/// Whether `find_at` computes `f` on the positions up to `len`.
pub open spec fn computes<F: Fn(usize) -> Option<(usize, usize)>>(
    find_at: F,
    len: usize,
    f: spec_fn(int) -> Option<(int, int)>,
) -> bool {
    forall|scan: usize, m: Option<(usize, usize)>| #[trigger]
        find_at.ensures((scan,), m) && scan <= len ==> found(m) == f(scan as int)
}

/// Where the scan goes on after a match from `start` to `end`.
pub open spec fn next_scan(start: int, end: int) -> int {
    if end > start {
        end
    } else {
        end + 1
    }
}

/// Record the match `[start, end)` unless it is an empty one right at the end of the
/// match before it. Returns where the scan goes on, if there is anything left of it.
pub fn record(
    start: usize,
    end: usize,
    len: usize,
    last_end: &mut Option<usize>,
    out: &mut Vec<Span>,
) -> (next: Option<usize>)
    requires
        start <= end,
    ensures
        start == end && *old(last_end) == Some(start) ==> final(out)@ == old(out)@
            && *final(last_end) == *old(last_end),
        !(start == end && *old(last_end) == Some(start)) ==> final(out)@ == old(out)@.push(
            (Span { start, end }),
        ) && *final(last_end) == Some(end),
        match next {
            Some(n) => n == next_scan(start as int, end as int) && n <= len,
            None => next_scan(start as int, end as int) > len,
        },
{
    let repeated = match *last_end {
        Some(last) => start == end && last == start,
        None => false,
    };
    if !repeated {
        out.push(Span::new(start, end));
        *last_end = Some(end);
    }
    if end > start {
        if end <= len {
            Some(end)
        } else {
            None
        }
    } else if end < len {
        Some(end + 1)
    } else {
        None
    }
}

/// The position of the last recorded end.
pub open spec fn end_pos(last_end: Option<usize>) -> Option<int> {
    match last_end {
        Some(end) => Some(end as int),
        None => None,
    }
}

/// One step of a scan: the matches from `scan` on are the match found there, if it is
/// recorded, and those from where the scan goes on.
pub proof fn lemma_scan_step(
    f: spec_fn(int) -> Option<(int, int)>,
    len: int,
    scan: int,
    start: usize,
    end: usize,
    old_last: Option<usize>,
    new_last: Option<usize>,
    old_out: Seq<Span>,
    new_out: Seq<Span>,
)
    requires
        0 <= scan <= len,
        f(scan) == Some((start as int, end as int)),
        scan <= start <= end,
        start == end && old_last == Some(start) ==> new_out == old_out && new_last == old_last,
        !(start == end && old_last == Some(start)) ==> new_out == old_out.push(
            (Span { start, end }),
        ) && new_last == Some(end),
    ensures
        ranges(old_out) + scan_from(f, len, scan, end_pos(old_last)) == ranges(new_out)
            + scan_from(f, len, next_scan(start as int, end as int), end_pos(new_last)),
{
    let more = scan_from(f, len, next_scan(start as int, end as int), end_pos(new_last));
    if !(start == end && old_last == Some(start)) {
        let hit = (start as int, end as int);
        assert(ranges(new_out) =~= ranges(old_out) + seq![hit]);
        assert(ranges(old_out) + (seq![hit] + more) =~= ranges(new_out) + more);
    }
}

/// Drive a single-match `find_at(scan) -> Option<(start, end)>` routine across the
/// input, recording non-overlapping matches: an empty match is left out when it sits
/// exactly at the end of the match before it, and an empty match advances the scan by
/// one to guarantee progress.
pub fn scan_matches<F: Fn(usize) -> Option<(usize, usize)>>(
    len: usize,
    find_at: F,
    out: &mut Vec<Span>,
)
    requires
        forall|scan: usize| scan <= len ==> #[trigger] find_at.requires((scan,)),
        forall|scan: usize, m: Option<(usize, usize)>| #[trigger]
            find_at.ensures((scan,), m) && scan <= len ==> (m matches Some((start, end)) ==> scan
                <= start <= end),
    ensures
        forall|f: spec_fn(int) -> Option<(int, int)>|
            #![trigger scan_all(f, len as int)]
            computes(find_at, len, f) ==> ranges(final(out)@) == ranges(old(out)@) + scan_all(
                f,
                len as int,
            ),
{
    let mut scan: usize = 0;
    let mut last_end: Option<usize> = None;
    let ghost before = ranges(out@);
    loop
        invariant
            scan <= len,
            forall|f: spec_fn(int) -> Option<(int, int)>|
                #![trigger scan_all(f, len as int)]
                computes(find_at, len, f) ==> before + scan_all(f, len as int) == ranges(out@)
                    + scan_from(f, len as int, scan as int, end_pos(last_end)),
            forall|scan: usize| scan <= len ==> #[trigger] find_at.requires((scan,)),
            forall|scan: usize, m: Option<(usize, usize)>| #[trigger]
                find_at.ensures((scan,), m) && scan <= len ==> (m matches Some((start, end)) ==> scan
                    <= start <= end),
            before == ranges(old(out)@),
        decreases len - scan,
    {
        let hit = find_at(scan);
        proof {
            assert(ranges(out@) + Seq::<(int, int)>::empty() =~= ranges(out@));
        }
        match hit {
            None => {
                assert forall|f: spec_fn(int) -> Option<(int, int)>|
                    #![trigger scan_all(f, len as int)]
                    computes(find_at, len, f) implies before + scan_all(f, len as int) == ranges(
                    out@,
                ) by {
                    assert(found(hit) == f(scan as int));
                }
                return ;
            },
            Some((start, end)) => {
                let ghost was = out@;
                let ghost was_last = last_end;
                let next = record(start, end, len, &mut last_end, out);
                proof {
                    assert forall|f: spec_fn(int) -> Option<(int, int)>|
                        #![trigger scan_all(f, len as int)]
                        computes(find_at, len, f) implies before + scan_all(f, len as int)
                        == ranges(out@) + scan_from(
                        f,
                        len as int,
                        next_scan(start as int, end as int),
                        end_pos(last_end),
                    ) by {
                        assert(found(hit) == f(scan as int));
                        lemma_scan_step(
                            f,
                            len as int,
                            scan as int,
                            start,
                            end,
                            was_last,
                            last_end,
                            was,
                            out@,
                        );
                    }
                }
                match next {
                    Some(n) => {
                        scan = n;
                    },
                    None => {
                        assert(ranges(out@) + Seq::<(int, int)>::empty() =~= ranges(out@));
                        return ;
                    },
                }
            },
        }
    }
}

/// Whether every end lies in an input of length `len`, behind its start or at it.
pub open spec fn ends_within(end_at: spec_fn(int) -> Option<int>, len: int) -> bool {
    forall|start: int|
        0 <= start <= len ==> match #[trigger] end_at(start) {
            Some(end) => start <= end <= len,
            None => true,
        }
}

/// Whether every match lies in an input of length `len`, behind where it was looked for.
spec fn finds_within(find_at: spec_fn(int) -> Option<(int, int)>, len: int) -> bool {
    forall|at: int|
        0 <= at <= len ==> match #[trigger] find_at(at) {
            Some((start, end)) => at <= start <= end <= len,
            None => true,
        }
}

/// Whether spans lie in an input of length `len`, one behind the other: none begins before
/// the one before it ends, and no empty one stands right at the end of another.
pub open spec fn in_order(spans: Seq<(int, int)>, len: int) -> bool {
    &&& forall|i: int|
        0 <= i < spans.len() ==> 0 <= (#[trigger] spans[i]).0 <= spans[i].1 <= len
    &&& forall|i: int, j: int|
        0 <= i < j < spans.len() ==> {
            &&& (#[trigger] spans[i]).1 <= (#[trigger] spans[j]).0
            &&& spans[j].0 == spans[j].1 ==> spans[i].1 < spans[j].0
        }
}

proof fn lemma_scan_in_order(
    find_at: spec_fn(int) -> Option<(int, int)>,
    len: int,
    scan: int,
    last_end: Option<int>,
)
    requires
        0 <= scan,
        last_end matches Some(e) ==> e <= scan,
        finds_within(find_at, len),
    ensures
        in_order(scan_from(find_at, len, scan, last_end), len),
        forall|i: int|
            0 <= i < scan_from(find_at, len, scan, last_end).len() ==> {
                let span = #[trigger] scan_from(find_at, len, scan, last_end)[i];
                &&& scan <= span.0
                &&& last_end == Some(span.0) ==> span.0 < span.1
            },
    decreases to_go(len, scan),
{
    if scan <= len {
        match find_at(scan) {
            None => {},
            Some((start, end)) => {
                if start == end && last_end == Some(start) {
                    lemma_scan_in_order(find_at, len, start + 1, last_end);
                } else {
                    let next = next_scan(start, end);
                    lemma_scan_in_order(find_at, len, next, Some(end));
                    let rest = scan_from(find_at, len, next, Some(end));
                    let all = seq![(start, end)] + rest;
                    assert(scan_from(find_at, len, scan, last_end) == all);
                    assert forall|i: int, j: int| 0 <= i < j < all.len() implies {
                        &&& (#[trigger] all[i]).1 <= (#[trigger] all[j]).0
                        &&& all[j].0 == all[j].1 ==> all[i].1 < all[j].0
                    } by {
                        assert(all[j] == rest[j - 1]);
                        if i > 0 {
                            assert(all[i] == rest[i - 1]);
                        }
                    }
                    assert forall|i: int| 0 <= i < all.len() implies {
                        let span = #[trigger] all[i];
                        &&& scan <= span.0
                        &&& last_end == Some(span.0) ==> span.0 < span.1
                    } by {
                        if i > 0 {
                            assert(all[i] == rest[i - 1]);
                        }
                    }
                    assert forall|i: int| 0 <= i < all.len() implies 0 <= (#[trigger] all[i]).0
                        <= all[i].1 <= len by {
                        if i > 0 {
                            assert(all[i] == rest[i - 1]);
                        }
                    }
                }
            },
        }
    }
}

pub proof fn lemma_leftmost_within(end_at: spec_fn(int) -> Option<int>, len: int, scan: int)
    requires
        0 <= scan,
        ends_within(end_at, len),
    ensures
        leftmost(end_at, len, scan) matches Some((start, end)) ==> scan <= start <= end <= len
            && end_at(start) == Some(end),
    decreases len + 1 - scan,
{
    if scan <= len && end_at(scan) is None {
        lemma_leftmost_within(end_at, len, scan + 1);
    }
}

/// All matches lie in the input, one behind the other.
pub proof fn matches_are_in_order(end_at: spec_fn(int) -> Option<int>, len: int)
    requires
        0 <= len,
        ends_within(end_at, len),
    ensures
        in_order(all_matches(end_at, len), len),
{
    let find_at = |scan: int| leftmost(end_at, len, scan);
    assert forall|at: int| 0 <= at <= len implies match #[trigger] find_at(at) {
        Some((start, end)) => at <= start <= end <= len,
        None => true,
    } by {
        lemma_leftmost_within(end_at, len, at);
    }
    lemma_scan_in_order(find_at, len, 0, None);
}

proof fn lemma_scan_found(
    end_at: spec_fn(int) -> Option<int>,
    find_at: spec_fn(int) -> Option<(int, int)>,
    len: int,
    scan: int,
    last_end: Option<int>,
)
    requires
        0 <= scan,
        ends_within(end_at, len),
        forall|at: int| #[trigger] find_at(at) == leftmost(end_at, len, at),
    ensures
        forall|i: int|
            0 <= i < scan_from(find_at, len, scan, last_end).len() ==> {
                let span = #[trigger] scan_from(find_at, len, scan, last_end)[i];
                end_at(span.0) == Some(span.1)
            },
    decreases to_go(len, scan),
{
    if scan <= len {
        lemma_leftmost_within(end_at, len, scan);
        if let Some((start, end)) = find_at(scan) {
            if start == end && last_end == Some(start) {
                lemma_scan_found(end_at, find_at, len, start + 1, last_end);
            } else {
                let next = next_scan(start, end);
                lemma_scan_found(end_at, find_at, len, next, Some(end));
                let rest = scan_from(find_at, len, next, Some(end));
                let all = seq![(start, end)] + rest;
                assert(scan_from(find_at, len, scan, last_end) == all);
                assert forall|i: int| 0 <= i < all.len() implies ({
                    let span = #[trigger] all[i];
                    end_at(span.0) == Some(span.1)
                }) by {
                    if i > 0 {
                        assert(all[i] == rest[i - 1]);
                    }
                }
            }
        }
    }
}

proof fn lemma_leftmost_found(end_at: spec_fn(int) -> Option<int>, len: int, scan: int, start: int)
    requires
        scan <= start <= len,
        end_at(start) is Some,
    ensures
        leftmost(end_at, len, scan) is Some,
    decreases start - scan,
{
    if end_at(scan) is None {
        lemma_leftmost_found(end_at, len, scan + 1, start);
    }
}

/// Every match found is the preferred one at its start, and where there is a match at any
/// start something is found.
pub proof fn matches_are_found(end_at: spec_fn(int) -> Option<int>, len: int)
    requires
        0 <= len,
        ends_within(end_at, len),
    ensures
        forall|i: int|
            0 <= i < all_matches(end_at, len).len() ==> {
                let span = #[trigger] all_matches(end_at, len)[i];
                end_at(span.0) == Some(span.1)
            },
        forall|start: int|
            0 <= start <= len && #[trigger] end_at(start) is Some ==> all_matches(end_at, len).len()
                > 0,
{
    let find_at = |scan: int| leftmost(end_at, len, scan);
    lemma_scan_found(end_at, find_at, len, 0, None);
    lemma_leftmost_within(end_at, len, 0);
    assert forall|start: int| 0 <= start <= len && #[trigger] end_at(start) is Some implies
        all_matches(end_at, len).len() > 0 by {
        lemma_leftmost_found(end_at, len, 0, start);
        assert(find_at(0) is Some);
    }
}

/// Whether a match at `start` that ends at `end` is accounted for by `spans`: it is one of
/// them, it begins inside one of them, or it is empty and stands right at the end of one.
pub open spec fn is_accounted_for(spans: Seq<(int, int)>, start: int, end: int) -> bool {
    exists|i: int|
        0 <= i < spans.len() && {
            ||| #[trigger] spans[i] == (start, end)
            ||| spans[i].0 < start < spans[i].1
            ||| start == end && spans[i].1 == start
        }
}

pub proof fn lemma_leftmost_first(end_at: spec_fn(int) -> Option<int>, len: int, scan: int, start: int)
    requires
        scan <= start <= len,
        end_at(start) is Some,
    ensures
        leftmost(end_at, len, scan) matches Some((first, end)) && first <= start && end_at(first)
            == Some(end),
    decreases start - scan,
{
    if end_at(scan) is None {
        lemma_leftmost_first(end_at, len, scan + 1, start);
    }
}

proof fn lemma_scan_accounts(
    end_at: spec_fn(int) -> Option<int>,
    find_at: spec_fn(int) -> Option<(int, int)>,
    len: int,
    scan: int,
    last_end: Option<int>,
    start: int,
)
    requires
        0 <= scan <= start <= len,
        ends_within(end_at, len),
        forall|at: int| #[trigger] find_at(at) == leftmost(end_at, len, at),
        end_at(start) is Some,
    ensures
        ({
            let end = end_at(start)->0;
            ||| is_accounted_for(scan_from(find_at, len, scan, last_end), start, end)
            ||| start == end && last_end == Some(start)
        }),
    decreases to_go(len, scan),
{
    let end = end_at(start)->0;
    let spans = scan_from(find_at, len, scan, last_end);
    lemma_leftmost_within(end_at, len, scan);
    lemma_leftmost_first(end_at, len, scan, start);
    let (first, last) = find_at(scan)->0;
    if first == last && last_end == Some(first) {
        if first < start {
            lemma_scan_accounts(end_at, find_at, len, first + 1, last_end, start);
        }
    } else {
        let next = next_scan(first, last);
        let rest = scan_from(find_at, len, next, Some(last));
        assert(spans == seq![(first, last)] + rest);
        assert(spans[0] == (first, last));
        if first < start && next <= start {
            lemma_scan_accounts(end_at, find_at, len, next, Some(last), start);
            if is_accounted_for(rest, start, end) {
                let i = choose|i: int|
                    0 <= i < rest.len() && {
                        ||| #[trigger] rest[i] == (start, end)
                        ||| rest[i].0 < start < rest[i].1
                        ||| start == end && rest[i].1 == start
                    };
                assert(spans[i + 1] == rest[i]);
            }
        }
    }
}

/// No match is missed: the preferred match at every start is found, unless it begins inside a
/// match that was found, or is empty and stands right at the end of one.
pub proof fn no_match_is_missed(end_at: spec_fn(int) -> Option<int>, len: int, start: int)
    requires
        0 <= start <= len,
        ends_within(end_at, len),
        end_at(start) is Some,
    ensures
        is_accounted_for(all_matches(end_at, len), start, end_at(start)->0),
{
    let find_at = |scan: int| leftmost(end_at, len, scan);
    lemma_scan_accounts(end_at, find_at, len, 0, None, start);
}

/// Whether two lists hold the same spans.
pub fn same_spans(a: &Vec<Span>, b: &Vec<Span>) -> (same: bool)
    ensures
        same == (ranges(a@) == ranges(b@)),
{
    if a.len() != b.len() {
        assert(ranges(a@).len() != ranges(b@).len());
        return false;
    }
    let mut i: usize = 0;
    while i < a.len()
        invariant
            i <= a.len(),
            a.len() == b.len(),
            forall|j: int| 0 <= j < i ==> #[trigger] ranges(a@)[j] == ranges(b@)[j],
        decreases a.len() - i,
    {
        assert(ranges(a@)[i as int] == a@[i as int]@);
        assert(ranges(b@)[i as int] == b@[i as int]@);
        if a[i].start != b[i].start || a[i].end != b[i].end {
            return false;
        }
        i += 1;
    }
    assert(ranges(a@) =~= ranges(b@));
    true
}

}
