//! The measured subject: the matchers, scanning a corpus.
use crate::arguments::{requested, Design};
use crate::ast::{Pattern, Regex};
use crate::campaign::{gate_passes, gate_record, gate_record_is_evidence, gate_text, GateExit};
use crate::corpus::{corpus_bytes, pair_views, total_bytes, GoldenPair, Pair};
use crate::engine::{impl_named, matches_do_not_overlap, matches_of, names_select, Impl};
use crate::oracle::lie_apart;
use crate::paired::checked;
use crate::parser::pattern_in;
use crate::record::{
    advanced, mixed, record_is_read_back, record_text, state_after, FixedRecord, Label,
    ScheduleRng, Work,
};
use crate::scan::{in_order, ranges, same_spans, Span};
use crate::sota::{covered, covered_bytes};
use crate::text::{
    decimal, lacks, lemma_views_push, number_in, number_text, parse_u64, quote, quoted, said,
    same_text, split_words, views, words_of,
};
use vstd::prelude::*;
use vstd::utf8::encode_utf8;

verus! {

// ---------------------------------------------------------------------------
// The command line.
// ---------------------------------------------------------------------------

/// An option of the command line.
#[derive(Clone, Copy, Debug, PartialEq, Eq, Structural)]
pub enum Switch {
    Impl,
    Corpus,
    Check,
    CountOf,
    Measure,
    Seed,
    Sessions,
    Count,
    SubjectArgs,
    ArtifactId,
    WorkloadId,
}

/// The option that is written `text`.
pub open spec fn switch_named(text: Seq<char>) -> Option<Switch> {
    if text == "--impl"@ {
        Some(Switch::Impl)
    } else if text == "--corpus"@ {
        Some(Switch::Corpus)
    } else if text == "--check"@ {
        Some(Switch::Check)
    } else if text == "--count-of"@ {
        Some(Switch::CountOf)
    } else if text == "--measure"@ {
        Some(Switch::Measure)
    } else if text == "--seed"@ {
        Some(Switch::Seed)
    } else if text == "--sessions"@ {
        Some(Switch::Sessions)
    } else if text == "--count"@ {
        Some(Switch::Count)
    } else if text == "--subject-args"@ {
        Some(Switch::SubjectArgs)
    } else if text == "--optiwork-gate-artifact-id"@ {
        Some(Switch::ArtifactId)
    } else if text == "--optiwork-gate-workload-id"@ {
        Some(Switch::WorkloadId)
    } else {
        None
    }
}

fn find_switch(text: &str) -> (switch: Option<Switch>)
    ensures
        switch == switch_named(text@),
{
    if same_text(text, "--impl") {
        Some(Switch::Impl)
    } else if same_text(text, "--corpus") {
        Some(Switch::Corpus)
    } else if same_text(text, "--check") {
        Some(Switch::Check)
    } else if same_text(text, "--count-of") {
        Some(Switch::CountOf)
    } else if same_text(text, "--measure") {
        Some(Switch::Measure)
    } else if same_text(text, "--seed") {
        Some(Switch::Seed)
    } else if same_text(text, "--sessions") {
        Some(Switch::Sessions)
    } else if same_text(text, "--count") {
        Some(Switch::Count)
    } else if same_text(text, "--subject-args") {
        Some(Switch::SubjectArgs)
    } else if same_text(text, "--optiwork-gate-artifact-id") {
        Some(Switch::ArtifactId)
    } else if same_text(text, "--optiwork-gate-workload-id") {
        Some(Switch::WorkloadId)
    } else {
        None
    }
}

/// What the subject is told to do.
#[derive(Debug, PartialEq, Eq)]
pub struct SubjectConfig {
    pub impl_name: Option<String>,
    pub corpus: Option<String>,
    pub check: Option<String>,
    pub count_of: Option<String>,
    pub measure: Option<String>,
    pub seed: Option<u64>,
    pub sessions: Option<u64>,
    pub count: Option<u64>,
    pub subject_args: Option<String>,
    pub gate_artifact_id: Option<String>,
    pub gate_workload_id: Option<String>,
}

/// What a configuration says.
pub struct Task {
    pub impl_name: Option<Seq<char>>,
    pub corpus: Option<Seq<char>>,
    pub check: Option<Seq<char>>,
    pub count_of: Option<Seq<char>>,
    pub measure: Option<Seq<char>>,
    pub seed: Option<u64>,
    pub sessions: Option<u64>,
    pub count: Option<u64>,
    pub subject_args: Option<Seq<char>>,
    pub gate_artifact_id: Option<Seq<char>>,
    pub gate_workload_id: Option<Seq<char>>,
}

impl View for SubjectConfig {
    type V = Task;

    open spec fn view(&self) -> Task {
        Task {
            impl_name: said(self.impl_name),
            corpus: said(self.corpus),
            check: said(self.check),
            count_of: said(self.count_of),
            measure: said(self.measure),
            seed: self.seed,
            sessions: self.sessions,
            count: self.count,
            subject_args: said(self.subject_args),
            gate_artifact_id: said(self.gate_artifact_id),
            gate_workload_id: said(self.gate_workload_id),
        }
    }
}

/// Nothing to do yet.
pub open spec fn no_task() -> Task {
    Task {
        impl_name: None,
        corpus: None,
        check: None,
        count_of: None,
        measure: None,
        seed: None,
        sessions: None,
        count: None,
        subject_args: None,
        gate_artifact_id: None,
        gate_workload_id: None,
    }
}

/// `task` with an option set to `value`, or the complaint about the value.
pub open spec fn with_switch(task: Task, switch: Switch, value: Seq<char>) -> Result<
    Task,
    Seq<char>,
> {
    match switch {
        Switch::Impl => Ok(Task { impl_name: Some(value), ..task }),
        Switch::Corpus => Ok(Task { corpus: Some(value), ..task }),
        Switch::Check => Ok(Task { check: Some(value), ..task }),
        Switch::CountOf => Ok(Task { count_of: Some(value), ..task }),
        Switch::Measure => Ok(Task { measure: Some(value), ..task }),
        Switch::Seed => match number_in(value, u64::MAX as nat) {
            Some(n) => Ok(Task { seed: Some(n as u64), ..task }),
            None => Err("seed must be an integer"@),
        },
        Switch::Sessions => match number_in(value, u64::MAX as nat) {
            Some(n) => Ok(Task { sessions: Some(n as u64), ..task }),
            None => Err("sessions must be an integer"@),
        },
        Switch::Count => match number_in(value, u64::MAX as nat) {
            Some(n) => Ok(Task { count: Some(n as u64), ..task }),
            None => Err("count must be an integer"@),
        },
        Switch::SubjectArgs => Ok(Task { subject_args: Some(value), ..task }),
        Switch::ArtifactId => Ok(Task { gate_artifact_id: Some(value), ..task }),
        Switch::WorkloadId => Ok(Task { gate_workload_id: Some(value), ..task }),
    }
}

/// The task that `args` make of `task` from `at` on. A later option overrides an earlier
/// one. Help is asked for by the complaint `__help__`.
pub open spec fn task_from(args: Seq<Seq<char>>, at: int, task: Task) -> Result<Task, Seq<char>>
    decreases args.len() - at,
{
    if at >= args.len() {
        Ok(task)
    } else if args[at] == "-h"@ || args[at] == "--help"@ {
        Err("__help__"@)
    } else {
        match switch_named(args[at]) {
            None => Err("unknown option `"@ + args[at] + "`"@),
            Some(switch) => if at + 1 >= args.len() {
                Err("missing value after `"@ + args[at] + "`"@)
            } else {
                match with_switch(task, switch, args[at + 1]) {
                    Err(e) => Err(e),
                    Ok(more) => task_from(args, at + 2, more),
                }
            },
        }
    }
}

/// The word at `i`, if there is one.
pub open spec fn word_at(words: Seq<Seq<char>>, i: int) -> Option<Seq<char>> {
    if 0 <= i < words.len() {
        Some(words[i])
    } else {
        None
    }
}

/// `task` with the matcher and the corpus that opaque words from `i` on name. Other words are
/// passed over.
pub open spec fn merged(task: Task, words: Seq<Seq<char>>, i: int) -> Task
    decreases words.len() + 1 - i,
{
    if i >= words.len() {
        task
    } else if words[i] == "--impl"@ {
        merged(Task { impl_name: word_at(words, i + 1), ..task }, words, i + 2)
    } else if words[i] == "--corpus"@ {
        merged(Task { corpus: word_at(words, i + 1), ..task }, words, i + 2)
    } else {
        merged(task, words, i + 1)
    }
}

/// The task that a command line gives, or the first complaint about it.
pub open spec fn task_in(args: Seq<Seq<char>>) -> Result<Task, Seq<char>> {
    match task_from(args, 0, no_task()) {
        Err(e) => Err(e),
        Ok(task) => match task.subject_args {
            Some(blob) => Ok(merged(task, words_of(blob), 0)),
            None => Ok(task),
        },
    }
}

fn set_switch(config: &mut SubjectConfig, switch: Switch, value: &str) -> (done: Result<
    (),
    String,
>)
    ensures
        match done {
            Ok(_) => with_switch(old(config)@, switch, value@) == Ok::<Task, Seq<char>>(
                final(config)@,
            ),
            Err(e) => with_switch(old(config)@, switch, value@) == Err::<Task, Seq<char>>(e@),
        },
{
    match switch {
        Switch::Impl => config.impl_name = Some(value.to_owned()),
        Switch::Corpus => config.corpus = Some(value.to_owned()),
        Switch::Check => config.check = Some(value.to_owned()),
        Switch::CountOf => config.count_of = Some(value.to_owned()),
        Switch::Measure => config.measure = Some(value.to_owned()),
        Switch::Seed => match parse_u64(value) {
            Some(n) => config.seed = Some(n),
            None => return Err("seed must be an integer".to_owned()),
        },
        Switch::Sessions => match parse_u64(value) {
            Some(n) => config.sessions = Some(n),
            None => return Err("sessions must be an integer".to_owned()),
        },
        Switch::Count => match parse_u64(value) {
            Some(n) => config.count = Some(n),
            None => return Err("count must be an integer".to_owned()),
        },
        Switch::SubjectArgs => config.subject_args = Some(value.to_owned()),
        Switch::ArtifactId => config.gate_artifact_id = Some(value.to_owned()),
        Switch::WorkloadId => config.gate_workload_id = Some(value.to_owned()),
    }
    Ok(())
}

fn take_word(words: &Vec<String>, i: usize) -> (word: Option<String>)
    ensures
        said(word) == word_at(views(words@), i as int),
{
    if i < words.len() {
        Some(words[i].as_str().to_owned())
    } else {
        None
    }
}

fn merge_words(config: &mut SubjectConfig, words: &Vec<String>)
    ensures
        final(config)@ == merged(old(config)@, views(words@), 0),
{
    let ghost all = views(words@);
    let ghost whole = merged(config@, all, 0);
    let mut i: usize = 0;
    while i < words.len()
        invariant
            i <= words.len(),
            all == views(words@),
            whole == merged(old(config)@, all, 0),
            whole == merged(config@, all, i as int),
        decreases words.len() - i,
    {
        let word = words[i].as_str();
        assert(all[i as int] == word@);
        let takes: bool = if same_text(word, "--impl") {
            config.impl_name = take_word(words, i + 1);
            true
        } else if same_text(word, "--corpus") {
            config.corpus = take_word(words, i + 1);
            true
        } else {
            false
        };
        i += 1;
        if takes {
            if i >= words.len() {
                assert(merged(config@, all, i + 1) == config@);
                return ;
            }
            i += 1;
        }
    }
}

/// Parse a command line, and what it forwards as opaque arguments.
pub fn parse_args(args: &Vec<String>) -> (config: Result<SubjectConfig, String>)
    ensures
        match config {
            Ok(c) => task_in(views(args@)) == Ok::<Task, Seq<char>>(c@),
            Err(e) => task_in(views(args@)) == Err::<Task, Seq<char>>(e@),
        },
{
    let mut config = SubjectConfig {
        impl_name: None,
        corpus: None,
        check: None,
        count_of: None,
        measure: None,
        seed: None,
        sessions: None,
        count: None,
        subject_args: None,
        gate_artifact_id: None,
        gate_workload_id: None,
    };
    let mut at: usize = 0;
    let ghost texts = views(args@);
    let ghost whole = task_from(texts, 0, no_task());
    while at < args.len()
        invariant
            at <= args.len(),
            texts == views(args@),
            whole == task_from(texts, 0, no_task()),
            whole == task_from(texts, at as int, config@),
        decreases args.len() - at,
    {
        let argument = args[at].as_str();
        assert(texts[at as int] == argument@);
        if same_text(argument, "-h") || same_text(argument, "--help") {
            return Err("__help__".to_owned());
        }
        match find_switch(argument) {
            None => {
                return Err("unknown option `".to_owned().concat(argument).concat("`"));
            },
            Some(switch) => {
                if at + 1 >= args.len() {
                    return Err("missing value after `".to_owned().concat(argument).concat("`"));
                }
                assert(texts[at + 1] == args@[at + 1]@);
                match set_switch(&mut config, switch, args[at + 1].as_str()) {
                    Ok(_) => {},
                    Err(e) => return Err(e),
                }
                at += 2;
            },
        }
    }
    let words = match &config.subject_args {
        Some(blob) => split_words(blob.as_str()),
        None => {
            return Ok(config);
        },
    };
    merge_words(&mut config, &words);
    Ok(config)
}

// ---------------------------------------------------------------------------
// The order of the pairs.
// ---------------------------------------------------------------------------

/// `order` with the items at `j` and `k` exchanged.
pub open spec fn exchanged(order: Seq<usize>, j: int, k: int) -> Seq<usize> {
    order.update(j, order[k]).update(k, order[j])
}

/// `order` shuffled from the item at `j` down, by the numbers of a generator behind `state`.
pub open spec fn shuffled(order: Seq<usize>, j: int, state: u64) -> Seq<usize>
    decreases j,
{
    if j < 1 || j >= order.len() {
        order
    } else {
        let next = advanced(state);
        let k = (mixed(next) as usize) as int % (j + 1);
        shuffled(exchanged(order, j, k), j - 1, next)
    }
}

/// The numbers below `n` in order.
pub open spec fn counted(n: nat) -> Seq<usize> {
    Seq::new(n, |i: int| i as usize)
}

/// The order in which a generator at `state` visits `n` pairs.
pub open spec fn visiting_order(n: nat, state: u64) -> Seq<usize> {
    shuffled(counted(n), n - 1, state)
}

/// Whether `order` holds each number below its length once.
pub open spec fn is_permutation(order: Seq<usize>) -> bool {
    &&& order.no_duplicates()
    &&& forall|i: int| 0 <= i < order.len() ==> #[trigger] order[i] < order.len()
}

proof fn lemma_exchanged(order: Seq<usize>, j: int, k: int)
    requires
        is_permutation(order),
        0 <= j < order.len(),
        0 <= k < order.len(),
    ensures
        is_permutation(exchanged(order, j, k)),
        exchanged(order, j, k).len() == order.len(),
{
    let next = exchanged(order, j, k);
    assert forall|a: int, b: int| 0 <= a < next.len() && 0 <= b < next.len() && a != b implies
        next[a] != next[b] by {
        let from_a = if a == k { j } else if a == j { k } else { a };
        let from_b = if b == k { j } else if b == j { k } else { b };
        assert(next[a] == order[from_a]);
        assert(next[b] == order[from_b]);
        assert(from_a != from_b);
    }
    assert forall|i: int| 0 <= i < next.len() implies #[trigger] next[i] < next.len() by {
        let from = if i == k { j } else if i == j { k } else { i };
        assert(next[i] == order[from]);
    }
}

proof fn lemma_shuffled(order: Seq<usize>, j: int, state: u64)
    requires
        is_permutation(order),
    ensures
        is_permutation(shuffled(order, j, state)),
        shuffled(order, j, state).len() == order.len(),
    decreases j,
{
    if 1 <= j < order.len() {
        let next = advanced(state);
        let k = (mixed(next) as usize) as int % (j + 1);
        lemma_exchanged(order, j, k);
        lemma_shuffled(exchanged(order, j, k), j - 1, next);
    }
}

/// Every pair is visited exactly once, whatever the seed.
pub proof fn visits_are_permutations(n: nat, state: u64)
    requires
        n <= usize::MAX,
    ensures
        is_permutation(visiting_order(n, state)),
        visiting_order(n, state).len() == n,
{
    assert(is_permutation(counted(n)));
    lemma_shuffled(counted(n), n - 1, state);
}

/// How many numbers a shuffle of `n` items takes.
pub open spec fn draws(n: nat) -> nat {
    if n == 0 {
        0
    } else {
        (n - 1) as nat
    }
}

/// Shuffle the numbers below `n`.
pub fn permute(rng: &mut ScheduleRng, n: usize) -> (order: Vec<usize>)
    ensures
        order@ == visiting_order(n as nat, old(rng)@),
        is_permutation(order@),
        order.len() == n,
        final(rng)@ == state_after(old(rng)@, draws(n as nat)),
{
    let mut order: Vec<usize> = Vec::new();
    let mut i: usize = 0;
    while i < n
        invariant
            i <= n,
            order@ == counted(i as nat),
        decreases n - i,
    {
        order.push(i);
        i += 1;
        assert(order@ =~= counted(i as nat));
    }
    proof {
        visits_are_permutations(n as nat, rng@);
    }
    if n == 0 {
        return order;
    }
    let mut j: usize = n - 1;
    let ghost mut steps: nat = 0;
    while j >= 1
        invariant
            j < n,
            order.len() == n,
            steps + j == n - 1,
            rng@ == state_after(old(rng)@, steps),
            shuffled(order@, j as int, rng@) == visiting_order(n as nat, old(rng)@),
        decreases j,
    {
        let value: u64 = rng.next_u64();
        let k: usize = (value as usize) % (j + 1);
        let a: usize = order[j];
        let b: usize = order[k];
        let ghost before = order@;
        order.set(j, b);
        order.set(k, a);
        assert(order@ == exchanged(before, j as int, k as int));
        j -= 1;
        proof {
            steps = steps + 1;
        }
    }
    order
}

// ---------------------------------------------------------------------------
// A scan.
// ---------------------------------------------------------------------------

/// The sum of `f` at the indices `at`.
pub open spec fn sum_at(at: Seq<usize>, f: spec_fn(int) -> int) -> int
    decreases at.len(),
{
    if at.len() == 0 {
        0
    } else {
        sum_at(at.drop_last(), f) + f(at.last() as int)
    }
}

/// The sum of `f` at all indices below `n`.
pub open spec fn sum_below(n: nat, f: spec_fn(int) -> int) -> int
    decreases n,
{
    if n == 0 {
        0
    } else {
        sum_below((n - 1) as nat, f) + f(n - 1)
    }
}

proof fn lemma_sum_remove(at: Seq<usize>, f: spec_fn(int) -> int, i: int)
    requires
        0 <= i < at.len(),
    ensures
        sum_at(at, f) == sum_at(at.remove(i), f) + f(at[i] as int),
    decreases at.len(),
{
    if i == at.len() - 1 {
        assert(at.remove(i) =~= at.drop_last());
    } else {
        let fewer = at.drop_last();
        lemma_sum_remove(fewer, f, i);
        assert(at.remove(i).drop_last() =~= fewer.remove(i));
        assert(at.remove(i).last() == at.last());
    }
}

/// Over different indices the sum is at most that over all, and the same over all of them in
/// any order.
proof fn lemma_sum_different(at: Seq<usize>, f: spec_fn(int) -> int, n: nat)
    requires
        at.no_duplicates(),
        forall|i: int| 0 <= i < at.len() ==> #[trigger] at[i] < n,
        forall|i: int| 0 <= i < n ==> #[trigger] f(i) >= 0,
    ensures
        0 <= sum_at(at, f) <= sum_below(n, f),
        at.len() <= n,
        at.len() == n ==> sum_at(at, f) == sum_below(n, f),
    decreases n,
{
    if n == 0 {
        if at.len() > 0 {
            assert(at[0] < 0);
        }
    } else {
        let m = (n - 1) as nat;
        assert(f(n - 1) >= 0);
        if exists|i: int| 0 <= i < at.len() && at[i] == m {
            let i = choose|i: int| 0 <= i < at.len() && at[i] == m;
            let rest = at.remove(i);
            lemma_sum_remove(at, f, i);
            assert forall|k: int| 0 <= k < rest.len() implies #[trigger] rest[k] < m by {
                let from = if k < i { k } else { k + 1 };
                assert(rest[k] == at[from]);
                assert(at[from] < n);
                assert(at[from] != at[i]);
            }
            assert forall|a: int, b: int| 0 <= a < rest.len() && 0 <= b < rest.len() && a
                != b implies rest[a] != rest[b] by {
                let x = if a < i { a } else { a + 1 };
                let y = if b < i { b } else { b + 1 };
                assert(rest[a] == at[x]);
                assert(rest[b] == at[y]);
                assert(x != y);
            }
            lemma_sum_different(rest, f, m);
        } else {
            assert forall|k: int| 0 <= k < at.len() implies #[trigger] at[k] < m by {
                assert(at[k] < n);
            }
            lemma_sum_different(at, f, m);
        }
    }
}

/// How many bytes the matches of each pattern in its input cover.
pub open spec fn coverage(
    matcher: Impl,
    compiled: Seq<Regex>,
    pairs: Seq<Pair>,
) -> spec_fn(int) -> int {
    |i: int| covered(matches_of(matcher, compiled[i].ast@, pairs[i].input@))
}

/// Spans one behind the other cover no more than the input.
proof fn lemma_covered_fits(spans: Seq<(int, int)>, len: int)
    requires
        in_order(spans, len),
        0 <= len,
    ensures
        0 <= covered(spans) <= len,
        spans.len() > 0 ==> covered(spans) <= spans.last().1,
    decreases spans.len(),
{
    if spans.len() > 0 {
        let first = spans.drop_last();
        assert(in_order(first, len)) by {
            assert(forall|i: int| 0 <= i < first.len() ==> first[i] == spans[i]);
        }
        lemma_covered_fits(first, len);
        let n = spans.len() - 1;
        assert(0 <= spans[n].0 <= spans[n].1 <= len);
        if first.len() > 0 {
            assert(spans[n - 1].1 <= spans[n].0);
        }
    }
}

proof fn lemma_coverage_fits(matcher: Impl, compiled: Seq<Regex>, pairs: Seq<Pair>, n: nat)
    requires
        n <= pairs.len(),
    ensures
        forall|i: int|
            0 <= i < n ==> 0 <= #[trigger] coverage(matcher, compiled, pairs)(i)
                <= pairs[i].input@.len(),
        sum_below(n, coverage(matcher, compiled, pairs)) <= total_bytes(
            pair_views(pairs).take(n as int),
        ),
    decreases n,
{
    let f = coverage(matcher, compiled, pairs);
    if n > 0 {
        let m = n - 1;
        lemma_coverage_fits(matcher, compiled, pairs, m as nat);
        let input = pairs[m].input@;
        let spans = matches_of(matcher, compiled[m].ast@, input);
        matches_do_not_overlap(matcher, compiled[m].ast@, input);
        lemma_covered_fits(spans, input.len() as int);
        assert(f(m) == covered(spans));
        let views = pair_views(pairs);
        assert(views.take(n as int).drop_last() =~= views.take(m));
        assert(views.take(n as int).last() == pairs[m]@);
    }
}

/// The matches in pair `i`.
pub open spec fn found_at(
    matcher: Impl,
    compiled: Seq<Regex>,
    pairs: Seq<Pair>,
    i: int,
) -> Seq<(int, int)> {
    matches_of(matcher, compiled[i].ast@, pairs[i].input@)
}

/// Scan every pair once, in an order that the generator picks: how many scans were made, and
/// how many bytes their matches cover. The matches of the last scan are left in `out`.
pub fn scan_once(
    matcher: Impl,
    compiled: &Vec<Regex>,
    pairs: &Vec<Pair>,
    rng: &mut ScheduleRng,
    out: &mut Vec<Span>,
) -> (counts: (u64, u64))
    requires
        compiled.len() == pairs.len(),
        total_bytes(pair_views(pairs@)) <= u64::MAX,
    ensures
        counts.0 == pairs.len(),
        counts.1 == sum_below(pairs.len() as nat, coverage(matcher, compiled@, pairs@)),
        final(rng)@ == state_after(old(rng)@, draws(pairs.len() as nat)),
        pairs.len() == 0 ==> final(out)@ == old(out)@,
        pairs.len() > 0 ==> ranges(final(out)@) == found_at(
            matcher,
            compiled@,
            pairs@,
            visiting_order(pairs.len() as nat, old(rng)@).last() as int,
        ),
{
    let n: usize = pairs.len();
    let order = permute(rng, n);
    let ghost f = coverage(matcher, compiled@, pairs@);
    let ghost limit = sum_below(n as nat, f);
    proof {
        lemma_coverage_fits(matcher, compiled@, pairs@, n as nat);
        assert(pair_views(pairs@).take(n as int) =~= pair_views(pairs@));
    }
    let mut attempts: u64 = 0;
    let mut output_bytes: u64 = 0;
    let mut i: usize = 0;
    assert(order@.take(0) =~= Seq::empty());
    while i < order.len()
        invariant
            i <= order.len(),
            order.len() == n,
            n == pairs.len(),
            compiled.len() == n,
            is_permutation(order@),
            f == coverage(matcher, compiled@, pairs@),
            forall|k: int| 0 <= k < n ==> 0 <= #[trigger] f(k) <= pairs@[k].input@.len(),
            limit == sum_below(n as nat, f),
            limit <= u64::MAX,
            attempts == i,
            output_bytes == sum_at(order@.take(i as int), f),
            rng@ == state_after(old(rng)@, draws(n as nat)),
            i == 0 ==> out@ == old(out)@,
            i > 0 ==> ranges(out@) == found_at(
                matcher,
                compiled@,
                pairs@,
                order@[i - 1] as int,
            ),
        decreases order.len() - i,
    {
        let at: usize = order[i];
        out.clear();
        matcher.find_all(&compiled[at], pairs[at].input.as_slice(), out);
        let len: usize = pairs[at].input.len();
        proof {
            let input = pairs@[at as int].input@;
            matches_do_not_overlap(matcher, compiled@[at as int].ast@, input);
            let found = matches_of(matcher, compiled@[at as int].ast@, input);
            assert(ranges(out@) =~= found);
            assert(lie_apart(ranges(out@), len as int));
            assert(f(at as int) == covered(found));
            let more = order@.take(i + 1);
            assert(more.drop_last() =~= order@.take(i as int));
            assert(more.last() == at);
            lemma_sum_different(more, f, n as nat);
        }
        attempts += 1;
        output_bytes += covered_bytes(out);
        i += 1;
    }
    proof {
        assert(order@.take(n as int) =~= order@);
        lemma_sum_different(order@, f, n as nat);
    }
    (attempts, output_bytes)
}

// ---------------------------------------------------------------------------
// Before a timed run.
// ---------------------------------------------------------------------------

/// Why the first pattern among the first `n` that does not parse does not.
pub open spec fn syntax_error(pairs: Seq<(Seq<char>, Seq<u8>)>, n: int) -> Option<Seq<char>>
    decreases n,
{
    if n <= 0 {
        None
    } else {
        match syntax_error(pairs, n - 1) {
            Some(e) => Some(e),
            None => match pattern_in(encode_utf8(pairs[n - 1].0)) {
                Ok(_) => None,
                Err(e) => Some(e),
            },
        }
    }
}

proof fn lemma_syntax_error_stays(pairs: Seq<(Seq<char>, Seq<u8>)>, i: int, n: int)
    requires
        i <= n,
        syntax_error(pairs, i) is Some,
    ensures
        syntax_error(pairs, n) == syntax_error(pairs, i),
    decreases n - i,
{
    if i < n {
        lemma_syntax_error_stays(pairs, i, n - 1);
    }
}

/// Whether `compiled` holds the patterns of `pairs`.
pub open spec fn are_compiled(compiled: Seq<Regex>, pairs: Seq<Pair>) -> bool {
    &&& compiled.len() == pairs.len()
    &&& forall|i: int|
        0 <= i < compiled.len() ==> (#[trigger] compiled[i]).parsed() && compiled[i].source@
            == pairs[i].pattern@
}

/// Parse the pattern of every pair.
pub fn compile_all(pairs: &Vec<Pair>) -> (compiled: Result<Vec<Regex>, String>)
    ensures
        match compiled {
            Ok(c) => {
                &&& syntax_error(pair_views(pairs@), pairs.len() as int) is None
                &&& are_compiled(c@, pairs@)
            },
            Err(e) => syntax_error(pair_views(pairs@), pairs.len() as int) == Some(e@),
        },
{
    let ghost views = pair_views(pairs@);
    let mut compiled: Vec<Regex> = Vec::new();
    let mut i: usize = 0;
    while i < pairs.len()
        invariant
            i <= pairs.len(),
            views == pair_views(pairs@),
            syntax_error(views, i as int) is None,
            compiled.len() == i,
            forall|j: int|
                0 <= j < i ==> (#[trigger] compiled@[j]).parsed() && compiled@[j].source@
                    == pairs@[j].pattern@,
        decreases pairs.len() - i,
    {
        assert(views[i as int] == pairs@[i as int]@);
        match Regex::new(pairs[i].pattern.as_str()) {
            Ok(re) => {
                compiled.push(re);
            },
            Err(e) => {
                proof {
                    lemma_syntax_error_stays(views, i + 1, pairs.len() as int);
                }
                return Err(e);
            },
        }
        i += 1;
    }
    Ok(compiled)
}

/// What `kind` of run the subject is in, if it needs a setting that is missing.
pub open spec fn lacking(kind: Seq<char>, option: Seq<char>) -> Seq<char> {
    kind + " requires `"@ + option + "`"@
}

/// The matcher and the corpus of a run.
pub open spec fn inputs_of(task: Task, kind: Seq<char>) -> Result<(Impl, Seq<char>), Seq<char>> {
    match task.impl_name {
        None => Err(lacking(kind, "--impl"@)),
        Some(name) => match impl_named(name) {
            None => Err(
                "unknown impl `"@ + name + "` (expected naive|thompson|prefilter)"@,
            ),
            Some(matcher) => match task.corpus {
                None => Err(lacking(kind, "--corpus"@)),
                Some(corpus) => Ok((matcher, corpus)),
            },
        },
    }
}

fn complain(kind: &str, option: &str) -> (complaint: String)
    ensures
        complaint@ == lacking(kind@, option@),
{
    kind.to_owned().concat(" requires `").concat(option).concat("`")
}

/// Find the matcher and the corpus of a run.
pub fn inputs(config: &SubjectConfig, kind: &str) -> (found: Result<(Impl, String), String>)
    ensures
        match found {
            Ok((matcher, corpus)) => inputs_of(config@, kind@) == Ok::<
                (Impl, Seq<char>),
                Seq<char>,
            >((matcher, corpus@)),
            Err(e) => inputs_of(config@, kind@) == Err::<(Impl, Seq<char>), Seq<char>>(e@),
        },
{
    match &config.impl_name {
        None => Err(complain(kind, "--impl")),
        Some(name) => match Impl::parse(name.as_str()) {
            Err(e) => Err(e),
            Ok(matcher) => match &config.corpus {
                None => Err(complain(kind, "--corpus")),
                Some(corpus) => Ok((matcher, corpus.as_str().to_owned())),
            },
        },
    }
}

/// A timed run.
pub struct Timed {
    pub compiled: Vec<Regex>,
    pub sessions: u64,
    pub seed: u64,
    pub count: u64,
    pub mode: String,
    pub requested: u64,
}

/// What a timed run is about: its sessions, its seed, its work and its mode.
pub open spec fn timed_of(task: Task, pairs: Seq<(Seq<char>, Seq<u8>)>) -> Result<
    (u64, u64, u64, Seq<char>),
    Seq<char>,
> {
    if pairs.len() == 0 {
        Err("corpus contains no pairs"@)
    } else {
        match syntax_error(pairs, pairs.len() as int) {
            Some(e) => Err(e),
            None => match (task.sessions, task.seed, task.count) {
                (None, _, _) => Err("missing `--sessions`"@),
                (_, None, _) => Err("missing `--seed`"@),
                (_, _, None) => Err("missing `--count`"@),
                (Some(sessions), Some(seed), Some(count)) => {
                    let total = total_bytes(pairs);
                    if total != count {
                        Err(
                            "corpus has "@ + decimal(total) + " bytes but `--count` was "@
                                + decimal(count as nat)
                                + "; the runner's work check would fail"@,
                        )
                    } else if count * sessions > u64::MAX {
                        Err("count times sessions overflowed"@)
                    } else {
                        Ok(
                            (
                                sessions,
                                seed,
                                count,
                                match task.measure {
                                    Some(mode) => mode,
                                    None => "scan"@,
                                },
                            ),
                        )
                    }
                },
            },
        }
    }
}

/// Prepare a timed run over a corpus.
pub fn prepare(config: &SubjectConfig, pairs: &Vec<Pair>) -> (timed: Result<Timed, String>)
    requires
        total_bytes(pair_views(pairs@)) <= u64::MAX,
    ensures
        match timed {
            Ok(t) => {
                &&& timed_of(config@, pair_views(pairs@)) == Ok::<
                    (u64, u64, u64, Seq<char>),
                    Seq<char>,
                >((t.sessions, t.seed, t.count, t.mode@))
                &&& t.requested == t.count * t.sessions
                &&& are_compiled(t.compiled@, pairs@)
            },
            Err(e) => timed_of(config@, pair_views(pairs@)) == Err::<
                (u64, u64, u64, Seq<char>),
                Seq<char>,
            >(e@),
        },
{
    assert(pair_views(pairs@).len() == pairs@.len());
    if pairs.len() == 0 {
        return Err("corpus contains no pairs".to_owned());
    }
    let compiled = match compile_all(pairs) {
        Ok(compiled) => compiled,
        Err(e) => return Err(e),
    };
    let sessions: u64 = match config.sessions {
        Some(n) => n,
        None => return Err("missing `--sessions`".to_owned()),
    };
    let seed: u64 = match config.seed {
        Some(n) => n,
        None => return Err("missing `--seed`".to_owned()),
    };
    let count: u64 = match config.count {
        Some(n) => n,
        None => return Err("missing `--count`".to_owned()),
    };
    let mode = match &config.measure {
        Some(text) => text.as_str().to_owned(),
        None => "scan".to_owned(),
    };
    let total: u64 = corpus_bytes(pairs.as_slice());
    if total != count {
        return Err(
            "corpus has ".to_owned().concat(number_text(total as u128).as_str()).concat(
                " bytes but `--count` was ",
            ).concat(number_text(count as u128).as_str()).concat(
                "; the runner's work check would fail",
            ),
        );
    }
    match count.checked_mul(sessions) {
        Some(requested) => Ok(Timed { compiled, sessions, seed, count, mode, requested }),
        None => Err("count times sessions overflowed".to_owned()),
    }
}

/// The work of a timed run: what one scan does, in every session.
pub fn run_sessions(
    matcher: Impl,
    compiled: &Vec<Regex>,
    pairs: &Vec<Pair>,
    sessions: u64,
    rng: &mut ScheduleRng,
) -> (counts: (u64, u64))
    requires
        compiled.len() == pairs.len(),
        pairs.len() * sessions <= u64::MAX,
        total_bytes(pair_views(pairs@)) <= u64::MAX,
        total_bytes(pair_views(pairs@)) * sessions <= u64::MAX,
    ensures
        counts.0 == pairs.len() * sessions,
        counts.1 == sum_below(pairs.len() as nat, coverage(matcher, compiled@, pairs@)) * sessions,
        final(rng)@ == state_after(old(rng)@, draws(pairs.len() as nat) * sessions as nat),
{
    let ghost n = pairs.len() as nat;
    let ghost covers = sum_below(n, coverage(matcher, compiled@, pairs@));
    let ghost total = total_bytes(pair_views(pairs@));
    proof {
        lemma_coverage_fits(matcher, compiled@, pairs@, n);
        assert(pair_views(pairs@).take(n as int) =~= pair_views(pairs@));
    }
    let mut out: Vec<Span> = Vec::new();
    let mut attempts: u64 = 0;
    let mut output_bytes: u64 = 0;
    let mut done: u64 = 0;
    assert(n * 0 == 0 && covers * 0 == 0 && draws(n) * 0 == 0) by (nonlinear_arith);
    while done < sessions
        invariant
            done <= sessions,
            n == pairs.len(),
            compiled.len() == n,
            total == total_bytes(pair_views(pairs@)),
            total <= u64::MAX,
            n * sessions <= u64::MAX,
            total * sessions <= u64::MAX,
            covers == sum_below(n, coverage(matcher, compiled@, pairs@)),
            covers <= total,
            attempts == n * done,
            output_bytes == covers * done,
            rng@ == state_after(old(rng)@, draws(n) * done as nat),
        decreases sessions - done,
    {
        proof {
            assert(n * done + n == n * (done + 1) <= n * sessions) by (nonlinear_arith)
                requires
                    done < sessions,
            ;
            assert(covers * done + covers == covers * (done + 1)) by (nonlinear_arith);
            assert(covers * (done + 1) <= total * sessions) by (nonlinear_arith)
                requires
                    0 <= done < sessions,
                    covers <= total,
                    0 <= total,
            ;
            assert(draws(n) * done as nat + draws(n) == draws(n) * (done + 1) as nat)
                by (nonlinear_arith);
            lemma_states_add(old(rng)@, draws(n) * done as nat, draws(n));
        }
        let counts = scan_once(matcher, compiled, pairs, rng, &mut out);
        attempts += counts.0;
        output_bytes += counts.1;
        done += 1;
    }
    (attempts, output_bytes)
}

proof fn lemma_states_add(state: u64, a: nat, b: nat)
    ensures
        state_after(state_after(state, a), b) == state_after(state, a + b),
    decreases b,
{
    if b > 0 {
        lemma_states_add(state, a, (b - 1) as nat);
    }
}

/// The work that a timed run has done.
pub open spec fn work_of(
    task: (u64, u64, u64, Seq<char>),
    attempts: u64,
    elapsed_ns: u128,
    output_bytes: u64,
) -> Work {
    let (sessions, seed, count, mode) = task;
    Work {
        mode,
        seed: seed as nat,
        count: count as nat,
        sessions: sessions as nat,
        warmup_sessions: 1,
        requested: (count * sessions) as nat,
        completed: (count * sessions) as nat,
        attempts: attempts as nat,
        elapsed_ns: elapsed_ns as nat,
        output_bytes: output_bytes as nat,
    }
}

/// The record of a timed run.
pub fn measured(
    timed: &Timed,
    attempts: u64,
    elapsed_ns: u128,
    output_bytes: u64,
) -> (record: Result<FixedRecord, String>)
    requires
        timed.requested == timed.count * timed.sessions,
    ensures
        match record {
            Ok(r) => elapsed_ns > 0 && r@ == work_of(
                (timed.sessions, timed.seed, timed.count, timed.mode@),
                attempts,
                elapsed_ns,
                output_bytes,
            ),
            Err(e) => elapsed_ns == 0 && e@ == "timed region took zero nanoseconds"@,
        },
{
    if elapsed_ns == 0 {
        return Err("timed region took zero nanoseconds".to_owned());
    }
    Ok(
        FixedRecord {
            mode: timed.mode.as_str().to_owned(),
            seed: timed.seed,
            count: timed.count,
            sessions: timed.sessions,
            warmup_sessions: 1,
            requested: timed.requested,
            completed: timed.requested,
            attempts,
            elapsed_ns,
            output_bytes,
        },
    )
}

/// A runner accepts the record of a run that does what the runner asked for, on either side
/// and with every seed.
pub proof fn records_are_accepted(
    design: Design,
    label: Label,
    seed: u64,
    attempts: u64,
    elapsed_ns: u128,
    output_bytes: u64,
    speed: Seq<char>,
)
    requires
        requested(design) <= u64::MAX,
        elapsed_ns > 0,
        lacks(design.measure, '\t') && lacks(design.measure, '\n'),
        lacks(speed, '\t') && lacks(speed, '\n'),
    ensures
        ({
            let task = (design.sessions, seed, design.count, design.measure);
            let work = work_of(task, attempts, elapsed_ns, output_bytes);
            checked(design, label, seed, record_text(work, speed) + seq!['\n']) == Ok::<
                Work,
                Seq<char>,
            >(work)
        }),
{
    let task = (design.sessions, seed, design.count, design.measure);
    record_is_read_back(work_of(task, attempts, elapsed_ns, output_bytes), speed);
}

// ---------------------------------------------------------------------------
// A gate.
// ---------------------------------------------------------------------------

/// The settings of a gate run beside its matcher and its corpus: the golden file, and the
/// names of the artifact and the workload.
pub open spec fn gate_of(task: Task) -> Result<(Seq<char>, Seq<char>, Seq<char>), Seq<char>> {
    match (task.check, task.gate_artifact_id, task.gate_workload_id) {
        (None, _, _) => Err(lacking("gate run"@, "--check"@)),
        (_, None, _) => Err(lacking("gate run"@, "--optiwork-gate-artifact-id"@)),
        (_, _, None) => Err(lacking("gate run"@, "--optiwork-gate-workload-id"@)),
        (Some(golden), Some(artifact), Some(workload)) => Ok((golden, artifact, workload)),
    }
}

/// Find the settings of a gate run.
pub fn gate_settings(config: &SubjectConfig) -> (found: Result<(String, String, String), String>)
    ensures
        match found {
            Ok((golden, artifact, workload)) => gate_of(config@) == Ok::<
                (Seq<char>, Seq<char>, Seq<char>),
                Seq<char>,
            >((golden@, artifact@, workload@)),
            Err(e) => gate_of(config@) == Err::<(Seq<char>, Seq<char>, Seq<char>), Seq<char>>(e@),
        },
{
    match &config.check {
        None => Err(complain("gate run", "--check")),
        Some(golden) => match &config.gate_artifact_id {
            None => Err(complain("gate run", "--optiwork-gate-artifact-id")),
            Some(artifact) => match &config.gate_workload_id {
                None => Err(complain("gate run", "--optiwork-gate-workload-id")),
                Some(workload) => Ok(
                    (
                        golden.as_str().to_owned(),
                        artifact.as_str().to_owned(),
                        workload.as_str().to_owned(),
                    ),
                ),
            },
        },
    }
}

/// The pattern that a source text says.
pub open spec fn pattern_said(source: Seq<char>) -> Pattern {
    pattern_in(encode_utf8(source))->Ok_0
}

/// Whether the matcher finds other spans in a pair than the golden ones.
pub open spec fn mismatches(matcher: Impl, pair: Pair, golden: GoldenPair) -> bool {
    matches_of(matcher, pattern_said(pair.pattern@), pair.input@) != ranges(golden.spans@)
}

/// Those of the first `n` pairs in which the matcher finds other spans than the golden ones,
/// in order: the index of each, and how many spans were found in it.
pub open spec fn mismatched(
    matcher: Impl,
    corpus: Seq<Pair>,
    golden: Seq<GoldenPair>,
    n: int,
) -> Seq<(usize, usize)>
    decreases n,
{
    if n <= 0 {
        Seq::empty()
    } else {
        let before = mismatched(matcher, corpus, golden, n - 1);
        let pair = corpus[n - 1];
        if mismatches(matcher, pair, golden[n - 1]) {
            let found = matches_of(matcher, pattern_said(pair.pattern@), pair.input@).len();
            before.push(((n - 1) as usize, found as usize))
        } else {
            before
        }
    }
}

/// Why a corpus and golden vectors cannot be checked against each other.
pub open spec fn unfit(corpus: Seq<Pair>, golden: Seq<GoldenPair>) -> Option<Seq<char>> {
    if corpus.len() == 0 {
        Some("gate corpus contains no pairs"@)
    } else if corpus.len() != golden.len() {
        Some(
            "corpus has "@ + decimal(corpus.len()) + " pairs but golden has "@ + decimal(
                golden.len(),
            ) + "; they do not match"@,
        )
    } else {
        syntax_error(pair_views(corpus), corpus.len() as int)
    }
}

/// Check a matcher against golden vectors: which pairs it finds other spans in, and how many.
pub fn check(matcher: Impl, corpus: &Vec<Pair>, golden: &Vec<GoldenPair>) -> (found: Result<
    Vec<(usize, usize)>,
    String,
>)
    ensures
        match found {
            Ok(bad) => {
                &&& unfit(corpus@, golden@) is None
                &&& bad@ == mismatched(matcher, corpus@, golden@, corpus.len() as int)
                &&& forall|i: int| 0 <= i < bad.len() ==> (#[trigger] bad@[i]).0 < corpus.len()
            },
            Err(e) => unfit(corpus@, golden@) == Some(e@),
        },
{
    if corpus.len() == 0 {
        return Err("gate corpus contains no pairs".to_owned());
    }
    if corpus.len() != golden.len() {
        return Err(
            "corpus has ".to_owned().concat(number_text(corpus.len() as u128).as_str()).concat(
                " pairs but golden has ",
            ).concat(number_text(golden.len() as u128).as_str()).concat("; they do not match"),
        );
    }
    let ghost views = pair_views(corpus@);
    let mut bad: Vec<(usize, usize)> = Vec::new();
    let mut i: usize = 0;
    assert(bad@ =~= Seq::empty());
    while i < corpus.len()
        invariant
            i <= corpus.len(),
            0 < corpus.len() == golden.len(),
            views == pair_views(corpus@),
            syntax_error(views, i as int) is None,
            bad@ == mismatched(matcher, corpus@, golden@, i as int),
            forall|k: int| 0 <= k < bad.len() ==> (#[trigger] bad@[k]).0 < i,
        decreases corpus.len() - i,
    {
        assert(views[i as int] == corpus@[i as int]@);
        let re = match Regex::new(corpus[i].pattern.as_str()) {
            Ok(re) => re,
            Err(e) => {
                proof {
                    lemma_syntax_error_stays(views, i + 1, corpus.len() as int);
                }
                return Err(e);
            },
        };
        let mut out: Vec<Span> = Vec::new();
        matcher.find_all(&re, corpus[i].input.as_slice(), &mut out);
        assert(ranges(out@) =~= matches_of(matcher, re.ast@, corpus@[i as int].input@));
        if !same_spans(&out, &golden[i].spans) {
            assert(out@.len() == ranges(out@).len());
            bad.push((i, out.len()));
        }
        i += 1;
    }
    Ok(bad)
}

/// How many pairs a report shows.
pub const SHOWN_MISMATCHES: usize = 5;

/// The report of a pair in which other spans were found than the golden ones.
pub open spec fn mismatch_text(
    matcher: Impl,
    corpus: Seq<Pair>,
    golden: Seq<GoldenPair>,
    mismatch: (usize, usize),
) -> Seq<char> {
    let at = mismatch.0 as int;
    "MISMATCH impl="@ + matcher.name() + " pair="@ + decimal(at as nat) + " pattern="@ + quoted(
        corpus[at].pattern@,
    ) + " input_len="@ + decimal(corpus[at].input@.len()) + " expected="@ + decimal(
        golden[at].spans@.len(),
    ) + " got="@ + decimal(mismatch.1 as nat)
}

/// The report of how many pairs did not match.
pub open spec fn failure_text(matcher: Impl, bad: nat, all: nat) -> Seq<char> {
    "FAIL impl="@ + matcher.name() + " mismatched_pairs="@ + decimal(bad) + "/"@ + decimal(all)
}

/// The report of a gate that does not pass: the first pairs that do not match, and how many
/// do not.
pub open spec fn failure_report(
    matcher: Impl,
    corpus: Seq<Pair>,
    golden: Seq<GoldenPair>,
    bad: Seq<(usize, usize)>,
) -> Seq<Seq<char>> {
    let shown = if bad.len() < SHOWN_MISMATCHES {
        bad
    } else {
        bad.take(SHOWN_MISMATCHES as int)
    };
    shown.map_values(|m: (usize, usize)| mismatch_text(matcher, corpus, golden, m)).push(
        failure_text(matcher, bad.len(), corpus.len()),
    )
}

fn mismatch_line(
    matcher: Impl,
    corpus: &Vec<Pair>,
    golden: &Vec<GoldenPair>,
    mismatch: (usize, usize),
) -> (line: String)
    requires
        mismatch.0 < corpus.len() == golden.len(),
    ensures
        line@ == mismatch_text(matcher, corpus@, golden@, mismatch),
{
    let pair = &corpus[mismatch.0];
    let expected: usize = golden[mismatch.0].spans.len();
    "MISMATCH impl=".to_owned().concat(matcher.as_str()).concat(" pair=").concat(
        number_text(mismatch.0 as u128).as_str(),
    ).concat(" pattern=").concat(quote(pair.pattern.as_str()).as_str()).concat(
        " input_len=",
    ).concat(number_text(pair.input.len() as u128).as_str()).concat(" expected=").concat(
        number_text(expected as u128).as_str(),
    ).concat(" got=").concat(number_text(mismatch.1 as u128).as_str())
}

/// Report the pairs that do not match.
pub fn failure_lines(
    matcher: Impl,
    corpus: &Vec<Pair>,
    golden: &Vec<GoldenPair>,
    bad: &Vec<(usize, usize)>,
) -> (lines: Vec<String>)
    requires
        corpus.len() == golden.len(),
        forall|i: int| 0 <= i < bad.len() ==> (#[trigger] bad@[i]).0 < corpus.len(),
    ensures
        views(lines@) == failure_report(matcher, corpus@, golden@, bad@),
{
    let shown: usize = if bad.len() < SHOWN_MISMATCHES {
        bad.len()
    } else {
        SHOWN_MISMATCHES
    };
    let ghost texts = bad@.take(shown as int).map_values(
        |m: (usize, usize)| mismatch_text(matcher, corpus@, golden@, m),
    );
    let mut lines: Vec<String> = Vec::new();
    let mut i: usize = 0;
    assert(views(lines@) =~= texts.take(0));
    while i < shown
        invariant
            i <= shown <= bad.len(),
            corpus.len() == golden.len(),
            forall|k: int| 0 <= k < bad.len() ==> (#[trigger] bad@[k]).0 < corpus.len(),
            texts == bad@.take(shown as int).map_values(
                |m: (usize, usize)| mismatch_text(matcher, corpus@, golden@, m),
            ),
            views(lines@) == texts.take(i as int),
        decreases shown - i,
    {
        let line = mismatch_line(matcher, corpus, golden, bad[i]);
        proof {
            lemma_views_push(lines@, line);
            assert(texts[i as int] == line@);
            assert(texts.take(i + 1) =~= texts.take(i as int).push(line@));
        }
        lines.push(line);
        i += 1;
    }
    let line = "FAIL impl=".to_owned().concat(matcher.as_str()).concat(
        " mismatched_pairs=",
    ).concat(number_text(bad.len() as u128).as_str()).concat("/").concat(
        number_text(corpus.len() as u128).as_str(),
    );
    proof {
        lemma_views_push(lines@, line);
        assert(texts.take(shown as int) =~= texts);
        assert(bad.len() < SHOWN_MISMATCHES ==> bad@.take(shown as int) =~= bad@);
    }
    lines.push(line);
    lines
}

/// What a subject answers to a gate.
#[derive(Debug, PartialEq, Eq)]
pub enum Answer {
    /// The matcher finds the golden spans; the record that says so.
    Equivalent(String),
    /// It finds others; the report of them.
    Different(Vec<String>),
}

/// Answer a gate: check the matcher against golden vectors, and report for the artifact and
/// the workload.
pub fn run_check(
    matcher: Impl,
    corpus: &Vec<Pair>,
    golden: &Vec<GoldenPair>,
    artifact: &str,
    workload: &str,
) -> (answer: Result<Answer, String>)
    ensures
        ({
            let bad = mismatched(matcher, corpus@, golden@, corpus.len() as int);
            match answer {
                Err(e) => unfit(corpus@, golden@) == Some(e@),
                Ok(Answer::Equivalent(line)) => {
                    &&& unfit(corpus@, golden@) is None
                    &&& bad.len() == 0
                    &&& line@ == gate_text(artifact@, workload@, corpus.len() as nat)
                },
                Ok(Answer::Different(lines)) => {
                    &&& unfit(corpus@, golden@) is None
                    &&& bad.len() > 0
                    &&& views(lines@) == failure_report(matcher, corpus@, golden@, bad)
                },
            }
        }),
{
    let bad = match check(matcher, corpus, golden) {
        Ok(bad) => bad,
        Err(e) => return Err(e),
    };
    if bad.len() == 0 {
        Ok(Answer::Equivalent(gate_record(artifact, workload, corpus.len() as u64)))
    } else {
        Ok(Answer::Different(failure_lines(matcher, corpus, golden, &bad)))
    }
}

proof fn lemma_mismatched(
    matcher: Impl,
    corpus: Seq<Pair>,
    golden: Seq<GoldenPair>,
    n: int,
)
    requires
        0 <= n <= corpus.len() == golden.len(),
    ensures
        mismatched(matcher, corpus, golden, n).len() == 0 <==> forall|i: int|
            0 <= i < n ==> !mismatches(matcher, #[trigger] corpus[i], golden[i]),
    decreases n,
{
    if n > 0 {
        lemma_mismatched(matcher, corpus, golden, n - 1);
        let before = mismatched(matcher, corpus, golden, n - 1);
        if before.len() == 0 && !mismatches(matcher, corpus[n - 1], golden[n - 1]) {
            assert forall|i: int| 0 <= i < n implies !mismatches(
                matcher,
                #[trigger] corpus[i],
                golden[i],
            ) by {
                if i < n - 1 {
                    assert(!mismatches(matcher, corpus[i], golden[i]));
                }
            }
        }
    }
}

/// A gate passes if and only if the matcher finds exactly the golden spans in every pair.
pub proof fn gates_are_exact(matcher: Impl, corpus: Seq<Pair>, golden: Seq<GoldenPair>)
    requires
        corpus.len() == golden.len(),
    ensures
        mismatched(matcher, corpus, golden, corpus.len() as int).len() == 0 <==> forall|i: int|
            0 <= i < corpus.len() ==> matches_of(
                matcher,
                pattern_said((#[trigger] corpus[i]).pattern@),
                corpus[i].input@,
            ) == ranges(golden[i].spans@),
{
    lemma_mismatched(matcher, corpus, golden, corpus.len() as int);
}

/// A campaign takes what a subject answers where it is equivalent as the evidence that it
/// asked for.
pub proof fn answers_are_evidence(
    corpus: Seq<Pair>,
    golden: Seq<GoldenPair>,
    artifact: Seq<char>,
    workload: Seq<char>,
)
    requires
        unfit(corpus, golden) is None,
        corpus.len() <= u64::MAX,
        lacks(artifact, '\t') && lacks(artifact, '\n'),
        lacks(workload, '\t') && lacks(workload, '\n'),
    ensures
        gate_passes(
            GateExit::Status(0),
            gate_text(artifact, workload, corpus.len()) + seq!['\n'],
            artifact,
            workload,
        ),
{
    gate_record_is_evidence(artifact, workload, corpus.len());
}

/// A check lists exactly the pairs in which other spans were found than the golden ones, in
/// their order and each once, with how many spans were found in it.
#[verifier::spinoff_prover]
#[verifier::rlimit(40)]
pub proof fn mismatches_are_listed_exactly(
    matcher: Impl,
    corpus: Seq<Pair>,
    golden: Seq<GoldenPair>,
    n: int,
)
    requires
        0 <= n <= corpus.len() <= usize::MAX,
    ensures
        ({
            let list = mismatched(matcher, corpus, golden, n);
            &&& forall|i: int, j: int|
                0 <= i < j < list.len() ==> (#[trigger] list[i]).0 < (#[trigger] list[j]).0
            &&& forall|i: int|
                0 <= i < list.len() ==> {
                    let at = (#[trigger] list[i]).0 as int;
                    let found = matches_of(
                        matcher,
                        pattern_said(corpus[at].pattern@),
                        corpus[at].input@,
                    );
                    &&& at < n
                    &&& found != ranges(golden[at].spans@)
                    &&& list[i].1 == found.len() as usize
                }
            &&& forall|at: int|
                0 <= at < n && matches_of(
                    matcher,
                    pattern_said((#[trigger] corpus[at]).pattern@),
                    corpus[at].input@,
                ) != ranges(golden[at].spans@) ==> exists|i: int|
                    0 <= i < list.len() && (#[trigger] list[i]).0 == at
        }),
    decreases n,
{
    let list = mismatched(matcher, corpus, golden, n);
    if n > 0 {
        mismatches_are_listed_exactly(matcher, corpus, golden, n - 1);
        let before = mismatched(matcher, corpus, golden, n - 1);
        assert(forall|i: int| 0 <= i < before.len() ==> list[i] == before[i]);
        assert forall|at: int|
            0 <= at < n && matches_of(
                matcher,
                pattern_said((#[trigger] corpus[at]).pattern@),
                corpus[at].input@,
            ) != ranges(golden[at].spans@) implies exists|i: int|
            0 <= i < list.len() && (#[trigger] list[i]).0 == at by {
            if at < n - 1 {
                let i = choose|i: int| 0 <= i < before.len() && (#[trigger] before[i]).0 == at;
                assert(list[i].0 == at);
            } else {
                assert(mismatches(matcher, corpus[at], golden[at]));
                assert(list[before.len() as int].0 == at);
            }
        }
    }
}

/// A report shows the first pairs that do not match, each in its place and at most five, and
/// then how many do not.
#[verifier::spinoff_prover]
#[verifier::rlimit(40)]
pub proof fn reports_show_the_first_mismatches(
    matcher: Impl,
    corpus: Seq<Pair>,
    golden: Seq<GoldenPair>,
    bad: Seq<(usize, usize)>,
)
    ensures
        ({
            let report = failure_report(matcher, corpus, golden, bad);
            &&& bad.len() <= 5 ==> report.len() == bad.len() + 1
            &&& bad.len() > 5 ==> report.len() == 6
            &&& forall|i: int|
                0 <= i < report.len() - 1 ==> #[trigger] report[i] == "MISMATCH impl="@
                    + matcher.name() + " pair="@ + decimal(bad[i].0 as nat) + " pattern="@
                    + quoted(corpus[bad[i].0 as int].pattern@) + " input_len="@ + decimal(
                    corpus[bad[i].0 as int].input@.len(),
                ) + " expected="@ + decimal(golden[bad[i].0 as int].spans@.len()) + " got="@
                    + decimal(bad[i].1 as nat)
            &&& report.last() == "FAIL impl="@ + matcher.name() + " mismatched_pairs="@ + decimal(
                bad.len(),
            ) + "/"@ + decimal(corpus.len())
        }),
{
}

/// A corpus is refused for its patterns if and only if one of them does not parse, and the
/// complaint is about the first that does not.
pub proof fn first_syntax_errors_are_first(pairs: Seq<(Seq<char>, Seq<u8>)>, n: int)
    requires
        0 <= n <= pairs.len(),
    ensures
        syntax_error(pairs, n) is None <==> forall|i: int|
            0 <= i < n ==> pattern_in(encode_utf8((#[trigger] pairs[i]).0)) is Ok,
        forall|i: int|
            0 <= i < n && pattern_in(encode_utf8((#[trigger] pairs[i]).0)) is Err && (forall|j: int|
                0 <= j < i ==> pattern_in(encode_utf8((#[trigger] pairs[j]).0)) is Ok)
                ==> syntax_error(pairs, n) == Some(pattern_in(encode_utf8(pairs[i].0))->Err_0),
    decreases n,
{
    if n > 0 {
        first_syntax_errors_are_first(pairs, n - 1);
        let last = pattern_in(encode_utf8(pairs[n - 1].0));
        assert(last is Ok || last is Err);
    }
}

/// A corpus and golden vectors can be checked against each other if and only if there are
/// pairs, as many of the one as of the other, and every pattern parses.
pub proof fn checks_need_fitting_files(corpus: Seq<Pair>, golden: Seq<GoldenPair>)
    ensures
        unfit(corpus, golden) is None <==> {
            &&& corpus.len() > 0
            &&& corpus.len() == golden.len()
            &&& forall|i: int|
                0 <= i < corpus.len() ==> pattern_in(
                    encode_utf8((#[trigger] corpus[i]).pattern@),
                ) is Ok
        },
{
    let views = pair_views(corpus);
    first_syntax_errors_are_first(views, corpus.len() as int);
    assert(forall|i: int| 0 <= i < corpus.len() ==> #[trigger] views[i] == corpus[i]@);
    assert forall|i: int| 0 <= i < corpus.len() implies pattern_in(
        encode_utf8((#[trigger] corpus[i]).pattern@),
    ) == pattern_in(encode_utf8(views[i].0)) by {}
}

/// A run has a matcher and a corpus if and only if both were named and the name is that of a
/// matcher; and it has those that were named.
#[verifier::spinoff_prover]
#[verifier::rlimit(40)]
pub proof fn runs_need_matcher_and_corpus(task: Task, kind: Seq<char>)
    ensures
        inputs_of(task, kind) is Ok <==> {
            &&& task.corpus is Some
            &&& task.impl_name matches Some(name)
            &&& name == "naive"@ || name == "thompson"@ || name == "prefilter"@
        },
        inputs_of(task, kind) matches Ok((matcher, corpus)) ==> {
            &&& task.corpus == Some(corpus)
            &&& task.impl_name == Some(matcher.name())
        },
{
    names_select(Impl::Naive);
    names_select(Impl::Thompson);
    names_select(Impl::Prefilter);
    names_select(Impl::LazyDfa);
}

/// A timed run is made if and only if there are pairs, all patterns parse, the sessions, the
/// seed and the count were given, the count is the bytes of the corpus and all the work can
/// be counted; and it is about what was given, in the mode that was asked for or `scan`.
#[verifier::spinoff_prover]
#[verifier::rlimit(40)]
pub proof fn timed_runs_do_what_they_are_told(task: Task, pairs: Seq<(Seq<char>, Seq<u8>)>)
    ensures
        timed_of(task, pairs) is Ok <==> {
            &&& pairs.len() > 0
            &&& forall|i: int|
                0 <= i < pairs.len() ==> pattern_in(encode_utf8((#[trigger] pairs[i]).0)) is Ok
            &&& task.sessions is Some
            &&& task.seed is Some
            &&& task.count is Some
            &&& task.count->0 == total_bytes(pairs)
            &&& task.count->0 * task.sessions->0 <= u64::MAX
        },
        timed_of(task, pairs) matches Ok((sessions, seed, count, mode)) ==> {
            &&& task.sessions == Some(sessions)
            &&& task.seed == Some(seed)
            &&& task.count == Some(count)
            &&& task.measure is Some ==> task.measure == Some(mode)
            &&& task.measure is None ==> mode == "scan"@
        },
{
    first_syntax_errors_are_first(pairs, pairs.len() as int);
}

/// A gate run is made if and only if the golden file, the artifact and the workload were
/// named; and it is about those.
pub proof fn gate_runs_need_their_settings(task: Task)
    ensures
        gate_of(task) is Ok <==> task.check is Some && task.gate_artifact_id is Some
            && task.gate_workload_id is Some,
        gate_of(task) matches Ok((golden, artifact, workload)) ==> {
            &&& task.check == Some(golden)
            &&& task.gate_artifact_id == Some(artifact)
            &&& task.gate_workload_id == Some(workload)
        },
{
}

/// The record of a timed run says what was asked for, and that all of it was done.
pub proof fn records_say_what_was_asked(
    sessions: u64,
    seed: u64,
    count: u64,
    mode: Seq<char>,
    attempts: u64,
    elapsed_ns: u128,
    output_bytes: u64,
)
    ensures
        ({
            let work = work_of((sessions, seed, count, mode), attempts, elapsed_ns, output_bytes);
            &&& work.mode == mode
            &&& work.seed == seed
            &&& work.count == count
            &&& work.sessions == sessions
            &&& work.warmup_sessions == 1
            &&& work.requested == count * sessions
            &&& work.completed == work.requested
            &&& work.attempts == attempts
            &&& work.elapsed_ns == elapsed_ns
            &&& work.output_bytes == output_bytes
        }),
{
    assert(0 <= count * sessions) by (nonlinear_arith);
}

/// Whatever the order in which the pairs are visited, what their matches cover adds up to the
/// same, and each pair adds its own once.
pub proof fn every_pair_is_counted_once(n: nat, state: u64, f: spec_fn(int) -> int, k: int)
    requires
        0 <= k < n <= usize::MAX,
        forall|i: int| 0 <= i < n ==> #[trigger] f(i) >= 0,
    ensures
        sum_at(visiting_order(n, state), f) == sum_below(n, f),
        sum_below(n, f) == f(k) + sum_below(n, |i: int| if i == k { 0 } else { f(i) }),
{
    visits_are_permutations(n, state);
    lemma_sum_different(visiting_order(n, state), f, n);
    lemma_sum_without(n, f, k);
}

proof fn lemma_sum_without(n: nat, f: spec_fn(int) -> int, k: int)
    requires
        0 <= k,
    ensures
        sum_below(n, f) == (if k < n { f(k) } else { 0 }) + sum_below(
            n,
            |i: int| if i == k { 0 } else { f(i) },
        ),
    decreases n,
{
    if n > 0 {
        lemma_sum_without((n - 1) as nat, f, k);
    }
}

/// A shuffle puts at `j` the item that the next number of the generator picks among those up
/// to `j`, and leaves those behind it where they are.
pub proof fn numbers_pick_the_items(order: Seq<usize>, j: int, state: u64)
    requires
        1 <= j < order.len(),
    ensures
        shuffled(order, j, state).len() == order.len(),
        shuffled(order, j, state)[j] == order[(mixed(advanced(state)) as usize) as int % (j + 1)],
        forall|i: int| j < i < order.len() ==> #[trigger] shuffled(order, j, state)[i] == order[i],
    decreases j,
{
    let next = advanced(state);
    let drawn = (mixed(next) as usize) as int;
    let k = drawn % (j + 1);
    assert(0 <= k < j + 1) by (nonlinear_arith)
        requires
            k == drawn % (j + 1),
            1 <= j,
    ;
    let swapped = exchanged(order, j, k);
    assert(swapped[j] == order[k]);
    assert(shuffled(order, j, state) == shuffled(swapped, j - 1, next));
    if j > 1 {
        numbers_pick_the_items(swapped, j - 1, next);
    }
}

/// A scan covers, in each pair, the bytes of its matches: all matches of the pattern of the
/// pair in its input, and no other. A scan of pairs takes one number of the generator less
/// than there are pairs.
pub proof fn scans_cover_their_matches(
    matcher: Impl,
    compiled: Seq<Regex>,
    pairs: Seq<Pair>,
    i: int,
    n: nat,
)
    requires
        0 <= i < pairs.len(),
    ensures
        found_at(matcher, compiled, pairs, i) == matches_of(
            matcher,
            compiled[i].ast@,
            pairs[i].input@,
        ),
        coverage(matcher, compiled, pairs)(i) == covered(found_at(matcher, compiled, pairs, i)),
        0 <= coverage(matcher, compiled, pairs)(i) <= pairs[i].input@.len(),
        coverage(matcher, compiled, pairs)(i) == 0 <==> forall|k: int|
            0 <= k < found_at(matcher, compiled, pairs, i).len() ==> (#[trigger] found_at(
                matcher,
                compiled,
                pairs,
                i,
            )[k]).0 == found_at(matcher, compiled, pairs, i)[k].1,
        n > 0 ==> draws(n) == n - 1,
{
    let spans = found_at(matcher, compiled, pairs, i);
    let input = pairs[i].input@;
    matches_do_not_overlap(matcher, compiled[i].ast@, input);
    lemma_covered_fits(spans, input.len() as int);
    lemma_nothing_covered(spans, input.len() as int);
}

proof fn lemma_nothing_covered(spans: Seq<(int, int)>, len: int)
    requires
        in_order(spans, len),
        0 <= len,
    ensures
        covered(spans) == 0 <==> forall|k: int|
            0 <= k < spans.len() ==> (#[trigger] spans[k]).0 == spans[k].1,
    decreases spans.len(),
{
    if spans.len() > 0 {
        let first = spans.drop_last();
        assert(in_order(first, len)) by {
            assert(forall|i: int| 0 <= i < first.len() ==> first[i] == spans[i]);
        }
        lemma_nothing_covered(first, len);
        lemma_covered_fits(first, len);
        let n = spans.len() - 1;
        assert(0 <= spans[n].0 <= spans[n].1 <= len);
        assert(forall|i: int| 0 <= i < first.len() ==> first[i] == spans[i]);
        if covered(spans) == 0 {
            assert forall|k: int| 0 <= k < spans.len() implies (#[trigger] spans[k]).0
                == spans[k].1 by {
                if k < n {
                    assert(first[k].0 == first[k].1);
                }
            }
        } else if covered(first) != 0 {
            let k = choose|k: int|
                0 <= k < first.len() && (#[trigger] first[k]).0 != first[k].1;
            assert(spans[k].0 != spans[k].1);
        } else {
            assert(spans[n].0 != spans[n].1);
        }
    }
}

}
