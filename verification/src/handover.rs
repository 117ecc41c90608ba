//! What one program tells another is what the other understands: a campaign a comparison, and
//! both of them the subject.
use crate::arguments::{
    argv_of, asks_for_help, assigned, blob_of, design_in, designed, is_settled, nothing_given,
    option_named, options_from, positive_in, switched, Design, Given, Opt,
    DEFAULT_MAX_OUTPUT_BYTES, DEFAULT_TIMEOUT_MS, OUTPUT_BYTES_CAP,
};
use crate::campaign::{gate_command, paired_command, path_in, seed_options, side_options};
use crate::config::Settings;
use crate::design::{
    as_values, calibration_command, comparison_command, shared_args, work_line, ArtifactDesign,
    CampaignDesign, PhaseDesign, WorkloadDesign,
};
use crate::paired::command_of;
use crate::record::{schedule_of, Label};
use crate::subject::{
    merged, no_task, switch_named, task_from, task_in, with_switch, Switch, Task,
};
use crate::text::{all_decimal, decimal, number_is_read_back, words_of};
use vstd::prelude::*;

verus! {

/// The name of an option is read as that option.
#[verifier::spinoff_prover]
pub proof fn options_are_read_back(option: Opt)
    ensures
        option_named(option.name()) == Some(option),
        !asks_for_help(option.name()),
{
    assert("--baseline"@.len() == 10 && "--baseline"@[2] == 'b' && "--baseline"@[3] == 'a') by {
        reveal_strlit("--baseline");
    }
    assert("--candidate"@.len() == 11 && "--candidate"@[2] == 'c' && "--candidate"@[3] == 'a') by {
        reveal_strlit("--candidate");
    }
    assert("--aa"@.len() == 4 && "--aa"@[2] == 'a' && "--aa"@[3] == 'a') by {
        reveal_strlit("--aa");
    }
    assert("--measure"@.len() == 9 && "--measure"@[2] == 'm' && "--measure"@[3] == 'e') by {
        reveal_strlit("--measure");
    }
    assert("--subject-args"@.len() == 14 && "--subject-args"@[2] == 's' && "--subject-args"@[3] == 'u') by {
        reveal_strlit("--subject-args");
    }
    assert("--baseline-args"@.len() == 15 && "--baseline-args"@[2] == 'b' && "--baseline-args"@[3] == 'a') by {
        reveal_strlit("--baseline-args");
    }
    assert("--candidate-args"@.len() == 16 && "--candidate-args"@[2] == 'c' && "--candidate-args"@[3] == 'a') by {
        reveal_strlit("--candidate-args");
    }
    assert("--direct-args"@.len() == 13 && "--direct-args"@[2] == 'd' && "--direct-args"@[3] == 'i') by {
        reveal_strlit("--direct-args");
    }
    assert("--subject-arg"@.len() == 13 && "--subject-arg"@[2] == 's' && "--subject-arg"@[3] == 'u') by {
        reveal_strlit("--subject-arg");
    }
    assert("--baseline-arg"@.len() == 14 && "--baseline-arg"@[2] == 'b' && "--baseline-arg"@[3] == 'a') by {
        reveal_strlit("--baseline-arg");
    }
    assert("--candidate-arg"@.len() == 15 && "--candidate-arg"@[2] == 'c' && "--candidate-arg"@[3] == 'a') by {
        reveal_strlit("--candidate-arg");
    }
    assert("--count"@.len() == 7 && "--count"@[2] == 'c' && "--count"@[3] == 'o') by {
        reveal_strlit("--count");
    }
    assert("--sessions"@.len() == 10 && "--sessions"@[2] == 's' && "--sessions"@[3] == 'e') by {
        reveal_strlit("--sessions");
    }
    assert("--blocks"@.len() == 8 && "--blocks"@[2] == 'b' && "--blocks"@[3] == 'l') by {
        reveal_strlit("--blocks");
    }
    assert("--seed"@.len() == 6 && "--seed"@[2] == 's' && "--seed"@[3] == 'e') by {
        reveal_strlit("--seed");
    }
    assert("--order-seed"@.len() == 12 && "--order-seed"@[2] == 'o' && "--order-seed"@[3] == 'r') by {
        reveal_strlit("--order-seed");
    }
    assert("--schedule"@.len() == 10 && "--schedule"@[2] == 's' && "--schedule"@[3] == 'c') by {
        reveal_strlit("--schedule");
    }
    assert("--target-speedup"@.len() == 16 && "--target-speedup"@[2] == 't' && "--target-speedup"@[3] == 'a') by {
        reveal_strlit("--target-speedup");
    }
    assert("--held-out"@.len() == 10 && "--held-out"@[2] == 'h' && "--held-out"@[3] == 'e') by {
        reveal_strlit("--held-out");
    }
    assert("--timeout-ms"@.len() == 12 && "--timeout-ms"@[2] == 't' && "--timeout-ms"@[3] == 'i') by {
        reveal_strlit("--timeout-ms");
    }
    assert("--max-output-bytes"@.len() == 18 && "--max-output-bytes"@[2] == 'm' && "--max-output-bytes"@[3] == 'a') by {
        reveal_strlit("--max-output-bytes");
    }
    assert("-h"@.len() == 2) by {
        reveal_strlit("-h");
    }
    assert("--help"@.len() == 6 && "--help"@[2] == 'h' && "--help"@[3] == 'e') by {
        reveal_strlit("--help");
    }
}

proof fn lemma_positive(n: nat)
    requires
        0 < n <= u64::MAX,
    ensures
        positive_in(decimal(n)) == Some(n),
{
    number_is_read_back(n, u64::MAX as nat);
}

/// One option and its value are read in one step.
proof fn lemma_reads_value(
    args: Seq<Seq<char>>,
    percentages: Seq<bool>,
    at: int,
    given: Given,
    option: Opt,
    more: Given,
)
    requires
        0 <= at,
        at + 1 < args.len(),
        args[at] == option.name(),
        option.takes_value(),
        !is_settled(given, option),
        assigned(given, option, args[at + 1], percentages[at + 1]) == Ok::<Given, Seq<char>>(more),
    ensures
        options_from(args, percentages, at, given) == options_from(args, percentages, at + 2, more),
{
    options_are_read_back(option);
}

/// So is an option without a value.
proof fn lemma_reads_switch(
    args: Seq<Seq<char>>,
    percentages: Seq<bool>,
    at: int,
    given: Given,
    option: Opt,
)
    requires
        0 <= at < args.len(),
        args[at] == option.name(),
        !option.takes_value(),
        !is_settled(given, option),
    ensures
        options_from(args, percentages, at, given) == options_from(
            args,
            percentages,
            at + 1,
            switched(given, option),
        ),
{
    options_are_read_back(option);
}

proof fn lemma_as_values(option: Seq<char>, texts: Seq<Seq<char>>)
    ensures
        as_values(option, texts).len() == 2 * texts.len(),
    decreases texts.len(),
{
    if texts.len() > 0 {
        lemma_as_values(option, texts.drop_last());
    }
}

proof fn lemma_value_at(option: Seq<char>, texts: Seq<Seq<char>>, i: int)
    requires
        0 <= i < texts.len(),
    ensures
        as_values(option, texts)[2 * i] == option,
        as_values(option, texts)[2 * i + 1] == texts[i],
    decreases texts.len(),
{
    let rest = texts.drop_last();
    lemma_as_values(option, rest);
    if i < rest.len() {
        lemma_value_at(option, rest, i);
    }
}

/// Options that are given again and again: the texts that they have collected.
spec fn collected(given: Given, option: Opt, texts: Seq<Seq<char>>) -> Given {
    match option {
        Opt::SubjectArg => Given { subject_argv: given.subject_argv + texts, ..given },
        Opt::BaselineArg => Given { baseline_argv: given.baseline_argv + texts, ..given },
        _ => Given { candidate_argv: given.candidate_argv + texts, ..given },
    }
}

/// A row of single arguments is read argument by argument.
proof fn lemma_reads_texts(
    args: Seq<Seq<char>>,
    percentages: Seq<bool>,
    at: int,
    given: Given,
    option: Opt,
    texts: Seq<Seq<char>>,
    n: nat,
)
    requires
        option == Opt::SubjectArg || option == Opt::BaselineArg || option == Opt::CandidateArg,
        0 <= at,
        at + 2 * texts.len() <= args.len(),
        args.subrange(at, at + 2 * texts.len()) == as_values(option.name(), texts),
        n <= texts.len(),
    ensures
        options_from(args, percentages, at, given) == options_from(
            args,
            percentages,
            at + 2 * n,
            collected(given, option, texts.take(n as int)),
        ),
    decreases n,
{
    if n == 0 {
        let none = texts.take(0);
        assert(given.subject_argv + none =~= given.subject_argv);
        assert(given.baseline_argv + none =~= given.baseline_argv);
        assert(given.candidate_argv + none =~= given.candidate_argv);
    } else {
        let m = (n - 1) as nat;
        lemma_reads_texts(args, percentages, at, given, option, texts, m);
        lemma_value_at(option.name(), texts, m as int);
        let row = args.subrange(at, at + 2 * texts.len());
        assert(row[2 * (m as int)] == args[at + 2 * m]);
        assert(row[2 * (m as int) + 1] == args[at + 2 * m + 1]);
        let before = collected(given, option, texts.take(m as int));
        let more = collected(given, option, texts.take(n as int));
        let list = texts.take(m as int);
        let text = texts[m as int];
        assert(texts.take(n as int) =~= list.push(text));
        assert((given.subject_argv + list).push(text) =~= given.subject_argv + list.push(text));
        assert((given.baseline_argv + list).push(text) =~= given.baseline_argv + list.push(text));
        assert((given.candidate_argv + list).push(text) =~= given.candidate_argv + list.push(text));
        lemma_reads_value(args, percentages, at + 2 * m, before, option, more);
    }
}

/// A row of seeds is read seed by seed.
proof fn lemma_reads_seeds(
    args: Seq<Seq<char>>,
    percentages: Seq<bool>,
    at: int,
    given: Given,
    seeds: Seq<u64>,
    n: nat,
)
    requires
        0 <= at,
        at + 2 * seeds.len() <= args.len(),
        args.subrange(at, at + 2 * seeds.len()) == as_values(Opt::Seed.name(), all_decimal(seeds)),
        n <= seeds.len(),
    ensures
        options_from(args, percentages, at, given) == options_from(
            args,
            percentages,
            at + 2 * n,
            (Given { seeds: given.seeds + seeds.take(n as int), ..given }),
        ),
    decreases n,
{
    if n == 0 {
        assert(given.seeds + seeds.take(0) =~= given.seeds);
    } else {
        let m = (n - 1) as nat;
        let texts = all_decimal(seeds);
        lemma_reads_seeds(args, percentages, at, given, seeds, m);
        lemma_value_at(Opt::Seed.name(), texts, m as int);
        let row = args.subrange(at, at + 2 * seeds.len());
        assert(row[2 * (m as int)] == args[at + 2 * m]);
        assert(row[2 * (m as int) + 1] == args[at + 2 * m + 1]);
        let seed = seeds[m as int];
        assert(texts[m as int] == decimal(seed as nat));
        number_is_read_back(seed as nat, u64::MAX as nat);
        let before = Given { seeds: given.seeds + seeds.take(m as int), ..given };
        let more = Given { seeds: given.seeds + seeds.take(n as int), ..given };
        assert(seeds.take(n as int) =~= seeds.take(m as int).push(seed));
        assert(before.seeds.push(seed) =~= more.seeds);
        lemma_reads_value(args, percentages, at + 2 * m, before, Opt::Seed, more);
    }
}

/// Whether a comparison on a workload has work, in blocks that make a confidence bound, and
/// limits.
pub open spec fn can_be_asked(
    design: CampaignDesign,
    workload: WorkloadDesign,
    blocks: usize,
) -> bool {
    &&& design.measure@.len() > 0
    &&& workload.count > 0 && workload.sessions > 0
    &&& workload.count * workload.sessions <= u64::MAX
    &&& blocks >= 2
    &&& design.limits.subject_timeout_ms > 0
    &&& 0 < design.limits.max_output_bytes <= OUTPUT_BYTES_CAP
}

/// `given` with the work, the seeds and the limits of a comparison.
spec fn with_work(
    given: Given,
    design: CampaignDesign,
    workload: WorkloadDesign,
    phase: PhaseDesign,
    blocks: usize,
) -> Given {
    Given {
        direct_args: true,
        measure: Some(design.measure@),
        count: Some(workload.count),
        sessions: Some(workload.sessions),
        blocks: Some(blocks),
        order_seed: Some(phase.order_seed),
        timeout_ms: Some(design.limits.subject_timeout_ms),
        max_output_bytes: Some(design.limits.max_output_bytes),
        seeds: given.seeds + phase.seeds@,
        ..given
    }
}

/// Whether `given` says nothing of work and limits.
spec fn lacks_work(given: Given) -> bool {
    &&& !given.direct_args
    &&& given.measure is None
    &&& given.count is None
    &&& given.sessions is None
    &&& given.blocks is None
    &&& given.order_seed is None
    &&& given.timeout_ms is None
    &&& given.max_output_bytes is None
}

#[verifier::spinoff_prover]
proof fn lemma_reads_work(
    args: Seq<Seq<char>>,
    percentages: Seq<bool>,
    at: int,
    given: Given,
    design: CampaignDesign,
    workload: WorkloadDesign,
    phase: PhaseDesign,
    blocks: usize,
)
    requires
        0 <= at,
        at + 15 + 2 * phase.seeds@.len() <= args.len(),
        args.subrange(at, at + 15 + 2 * phase.seeds@.len()) == work_line(
            design,
            workload,
            phase,
            blocks,
        ),
        can_be_asked(design, workload, blocks),
        lacks_work(given),
    ensures
        options_from(args, percentages, at, given) == options_from(
            args,
            percentages,
            at + 15 + 2 * phase.seeds@.len(),
            with_work(given, design, workload, phase, blocks),
        ),
{
    let seeds = phase.seeds@;
    let row = args.subrange(at, at + 15 + 2 * seeds.len());
    let values = as_values(Opt::Seed.name(), all_decimal(seeds));
    lemma_as_values(Opt::Seed.name(), all_decimal(seeds));
    assert forall|i: int| 0 <= i < 15 implies row[i] == #[trigger] args[at + i] by {}
    assert(row[0] == args[at]);
    let a = switched(given, Opt::DirectArgs);
    lemma_reads_switch(args, percentages, at, given, Opt::DirectArgs);
    let b = Given { measure: Some(design.measure@), ..a };
    assert(row[1] == args[at + 1] && row[2] == args[at + 2]);
    lemma_reads_value(args, percentages, at + 1, a, Opt::Measure, b);
    let c = Given { count: Some(workload.count), ..b };
    lemma_positive(workload.count as nat);
    assert(row[3] == args[at + 3] && row[4] == args[at + 4]);
    lemma_reads_value(args, percentages, at + 3, b, Opt::Count, c);
    let d = Given { sessions: Some(workload.sessions), ..c };
    lemma_positive(workload.sessions as nat);
    assert(row[5] == args[at + 5] && row[6] == args[at + 6]);
    lemma_reads_value(args, percentages, at + 5, c, Opt::Sessions, d);
    let e = Given { blocks: Some(blocks), ..d };
    lemma_positive(blocks as nat);
    assert(row[7] == args[at + 7] && row[8] == args[at + 8]);
    lemma_reads_value(args, percentages, at + 7, d, Opt::Blocks, e);
    let f = Given { order_seed: Some(phase.order_seed), ..e };
    number_is_read_back(phase.order_seed as nat, u64::MAX as nat);
    assert(row[9] == args[at + 9] && row[10] == args[at + 10]);
    lemma_reads_value(args, percentages, at + 9, e, Opt::OrderSeed, f);
    let g = Given { timeout_ms: Some(design.limits.subject_timeout_ms), ..f };
    lemma_positive(design.limits.subject_timeout_ms as nat);
    assert(row[11] == args[at + 11] && row[12] == args[at + 12]);
    lemma_reads_value(args, percentages, at + 11, f, Opt::TimeoutMs, g);
    let h = Given { max_output_bytes: Some(design.limits.max_output_bytes), ..g };
    lemma_positive(design.limits.max_output_bytes as nat);
    assert(row[13] == args[at + 13] && row[14] == args[at + 14]);
    lemma_reads_value(args, percentages, at + 13, g, Opt::MaxOutputBytes, h);
    assert(args.subrange(at + 15, at + 15 + 2 * seeds.len()) =~= values) by {
        assert forall|i: int| 0 <= i < values.len() implies args[at + 15 + i] == values[i] by {
            assert(row[15 + i] == args[at + 15 + i]);
        }
    }
    lemma_reads_seeds(args, percentages, at + 15, h, seeds, seeds.len());
    assert(seeds.take(seeds.len() as int) =~= seeds);
}

/// The comparison that a campaign asks for.
pub open spec fn asked_comparison(
    design: CampaignDesign,
    baseline: ArtifactDesign,
    candidate: ArtifactDesign,
    workload: WorkloadDesign,
    blocks: usize,
    held_out: bool,
) -> Design {
    let phase = if held_out {
        design.confirmation
    } else {
        design.exploration
    };
    Design {
        baseline: baseline.binary@,
        candidate: candidate.binary@,
        calibration: false,
        measure: design.measure@,
        subject_args: Seq::empty(),
        baseline_args: None,
        candidate_args: None,
        direct: true,
        subject_argv: Seq::empty(),
        baseline_argv: shared_args(baseline, workload),
        candidate_argv: shared_args(candidate, workload),
        count: workload.count,
        sessions: workload.sessions,
        seeds: phase.seeds@,
        schedule: schedule_of(blocks as nat, phase.order_seed),
        order_seed: Some(phase.order_seed),
        target_speedup: None,
        held_out,
        timeout_ms: design.limits.subject_timeout_ms,
        max_output_bytes: design.limits.max_output_bytes,
    }
}

/// The comparison that a campaign asks for is the one that is run. In it, each side is given
/// exactly the arguments with which it was checked.
#[verifier::spinoff_prover]
pub proof fn comparisons_are_understood(
    design: CampaignDesign,
    baseline: ArtifactDesign,
    candidate: ArtifactDesign,
    workload: WorkloadDesign,
    blocks: usize,
    held_out: bool,
    percentages: Seq<bool>,
)
    requires
        can_be_asked(design, workload, blocks),
        design.exploration.seeds.len() > 0 && design.confirmation.seeds.len() > 0,
    ensures
        ({
            let args = comparison_command(
                design,
                baseline,
                candidate,
                workload,
                blocks,
                held_out,
            );
            let asked = asked_comparison(
                design,
                baseline,
                candidate,
                workload,
                blocks,
                held_out,
            );
            &&& design_in(args, percentages) == Ok::<Option<Design>, Seq<char>>(Some(asked))
            &&& argv_of(asked, Label::Baseline) == shared_args(baseline, workload)
            &&& argv_of(asked, Label::Candidate) == shared_args(candidate, workload)
        }),
{
    let args = comparison_command(design, baseline, candidate, workload, blocks, held_out);
    let asked = asked_comparison(design, baseline, candidate, workload, blocks, held_out);
    let phase = if held_out {
        design.confirmation
    } else {
        design.exploration
    };
    let head = seq!["--baseline"@, baseline.binary@, "--candidate"@, candidate.binary@];
    let ours = shared_args(baseline, workload);
    let theirs = shared_args(candidate, workload);
    let first = as_values("--baseline-arg"@, ours);
    let second = as_values("--candidate-arg"@, theirs);
    let work = work_line(design, workload, phase, blocks);
    lemma_as_values("--baseline-arg"@, ours);
    lemma_as_values("--candidate-arg"@, theirs);
    lemma_as_values("--seed"@, all_decimal(phase.seeds@));
    let x: int = 4 + 2 * ours.len() as int;
    let y: int = x + 2 * theirs.len();
    let z: int = y + 15 + 2 * phase.seeds@.len();
    assert(args.len() == if held_out { z + 1 } else { z });
    assert(args.subrange(0, 4) =~= head);
    assert(args.subrange(4, x) =~= first);
    assert(args.subrange(x, y) =~= second);
    assert(args.subrange(y, z) =~= work);
    assert(head[0] == args[0] && head[1] == args[1] && head[2] == args[2] && head[3] == args[3]);

    let a = Given { baseline: Some(baseline.binary@), ..nothing_given() };
    lemma_reads_value(args, percentages, 0, nothing_given(), Opt::Baseline, a);
    let b = Given { candidate: Some(candidate.binary@), ..a };
    lemma_reads_value(args, percentages, 2, a, Opt::Candidate, b);
    let c = collected(b, Opt::BaselineArg, ours);
    lemma_reads_texts(args, percentages, 4, b, Opt::BaselineArg, ours, ours.len());
    assert(ours.take(ours.len() as int) =~= ours);
    assert(c.baseline_argv =~= ours);
    let d = collected(c, Opt::CandidateArg, theirs);
    lemma_reads_texts(args, percentages, x, c, Opt::CandidateArg, theirs, theirs.len());
    assert(theirs.take(theirs.len() as int) =~= theirs);
    assert(d.candidate_argv =~= theirs);
    lemma_reads_work(args, percentages, y, d, design, workload, phase, blocks);
    let e = with_work(d, design, workload, phase, blocks);
    assert(e.seeds =~= phase.seeds@);
    if held_out {
        assert(args[z] == "--held-out"@);
        lemma_reads_switch(args, percentages, z, e, Opt::HeldOut);
        assert(options_from(args, percentages, z + 1, switched(e, Opt::HeldOut)) == Ok::<
            Option<Given>,
            Seq<char>,
        >(Some(switched(e, Opt::HeldOut))));
        assert(designed(switched(e, Opt::HeldOut)) == asked);
    } else {
        assert(options_from(args, percentages, z, e) == Ok::<Option<Given>, Seq<char>>(
            Some(e),
        ));
        assert(designed(e) == asked);
    }
    assert(ours.len() == 0 ==> ours =~= Seq::empty());
    assert(theirs.len() == 0 ==> theirs =~= Seq::empty());
}

proof fn lemma_four_rows(
    a: Seq<Seq<char>>,
    b: Seq<Seq<char>>,
    c: Seq<Seq<char>>,
    d: Seq<Seq<char>>,
)
    ensures
        ({
            let all = a + b + c + d;
            let x = a.len() + b.len();
            let y = x + c.len();
            &&& all.len() == y + d.len()
            &&& all.subrange(0, a.len() as int) == a
            &&& all.subrange(a.len() as int, x as int) == b
            &&& all.subrange(x as int, y as int) == c
            &&& all.subrange(y as int, (y + d.len()) as int) == d
        }),
{
}

/// The calibration that a campaign asks for.
pub open spec fn asked_calibration(
    design: CampaignDesign,
    workload: WorkloadDesign,
    target: Seq<char>,
) -> Design {
    Design {
        baseline: design.baseline.binary@,
        candidate: design.baseline.binary@,
        calibration: true,
        measure: design.measure@,
        subject_args: Seq::empty(),
        baseline_args: None,
        candidate_args: None,
        direct: true,
        subject_argv: shared_args(design.baseline, workload),
        baseline_argv: Seq::empty(),
        candidate_argv: Seq::empty(),
        count: workload.count,
        sessions: workload.sessions,
        seeds: design.calibration.seeds@,
        schedule: schedule_of(workload.calibration_blocks as nat, design.calibration.order_seed),
        order_seed: Some(design.calibration.order_seed),
        target_speedup: Some(target),
        held_out: false,
        timeout_ms: design.limits.subject_timeout_ms,
        max_output_bytes: design.limits.max_output_bytes,
    }
}

/// The calibration that a campaign asks for is the one that is run. In it, both labels are
/// given exactly the arguments with which the original was checked.
#[verifier::spinoff_prover]
pub proof fn calibrations_are_understood(
    design: CampaignDesign,
    workload: WorkloadDesign,
    target: Seq<char>,
    percentages: Seq<bool>,
)
    requires
        can_be_asked(design, workload, workload.calibration_blocks),
        design.calibration.seeds.len() > 0,
        percentages.len() == calibration_command(design, workload, target).len(),
        percentages.last(),
    ensures
        ({
            let args = calibration_command(design, workload, target);
            let asked = asked_calibration(design, workload, target);
            &&& design_in(args, percentages) == Ok::<Option<Design>, Seq<char>>(Some(asked))
            &&& argv_of(asked, Label::Baseline) == shared_args(design.baseline, workload)
            &&& argv_of(asked, Label::Candidate) == shared_args(design.baseline, workload)
        }),
{
    let args = calibration_command(design, workload, target);
    let asked = asked_calibration(design, workload, target);
    let phase = design.calibration;
    let blocks = workload.calibration_blocks;
    let head = seq!["--aa"@, design.baseline.binary@];
    let ours = shared_args(design.baseline, workload);
    let first = as_values("--subject-arg"@, ours);
    let work = work_line(design, workload, phase, blocks);
    lemma_as_values("--subject-arg"@, ours);
    lemma_as_values("--seed"@, all_decimal(phase.seeds@));
    let x: int = 2 + 2 * ours.len() as int;
    let y: int = x + 15 + 2 * phase.seeds@.len();
    lemma_four_rows(head, first, work, seq!["--target-speedup"@, target]);
    let tail = args.subrange(y, y + 2);
    assert(args.subrange(0, 2)[0] == args[0] && args.subrange(0, 2)[1] == args[1]);
    assert(tail[0] == args[y] && tail[1] == args[y + 1]);

    let a = Given { aa: Some(design.baseline.binary@), ..nothing_given() };
    lemma_reads_value(args, percentages, 0, nothing_given(), Opt::Aa, a);
    let b = collected(a, Opt::SubjectArg, ours);
    lemma_reads_texts(args, percentages, 2, a, Opt::SubjectArg, ours, ours.len());
    assert(ours.take(ours.len() as int) =~= ours);
    assert(b.subject_argv =~= ours);
    lemma_reads_work(args, percentages, x, b, design, workload, phase, blocks);
    let c = with_work(b, design, workload, phase, blocks);
    assert(c.seeds =~= phase.seeds@);
    let d = Given { target_speedup: Some(target), ..c };
    lemma_reads_value(args, percentages, y, c, Opt::TargetSpeedup, d);
    assert(options_from(args, percentages, y + 2, d) == Ok::<Option<Given>, Seq<char>>(Some(d)));
    assert(designed(d) == asked);
}

/// The comparison that the campaign of one candidate asks for.
pub open spec fn asked_of_candidate(
    settings: Settings,
    workload: Seq<char>,
    count: u64,
    sessions: u64,
    blocks: usize,
) -> Design {
    let corpus = path_in(settings.corpora_dir, workload + ".bin"@);
    Design {
        baseline: settings.bench,
        candidate: settings.bench,
        calibration: false,
        measure: "scan"@,
        subject_args: Seq::empty(),
        baseline_args: None,
        candidate_args: None,
        direct: true,
        subject_argv: Seq::empty(),
        baseline_argv: seq!["--impl"@, settings.baseline_impl, "--corpus"@, corpus],
        candidate_argv: seq!["--impl"@, settings.candidate_impl, "--corpus"@, corpus],
        count,
        sessions,
        seeds: settings.seeds,
        schedule: schedule_of(blocks as nat, settings.order_seed),
        order_seed: Some(settings.order_seed),
        target_speedup: None,
        held_out: settings.held_out,
        timeout_ms: DEFAULT_TIMEOUT_MS,
        max_output_bytes: DEFAULT_MAX_OUTPUT_BYTES,
    }
}

proof fn lemma_seed_options(seeds: Seq<u64>)
    ensures
        seed_options(seeds) == as_values(Opt::Seed.name(), all_decimal(seeds)),
    decreases seeds.len(),
{
    if seeds.len() > 0 {
        lemma_seed_options(seeds.drop_last());
        assert(all_decimal(seeds).drop_last() =~= all_decimal(seeds.drop_last()));
    }
}

/// The arguments of one side are a row of single arguments.
proof fn lemma_side_options(option: Seq<char>, artifact: Seq<char>, corpus: Seq<char>)
    ensures
        side_options(option, artifact, corpus) == as_values(
            option,
            seq!["--impl"@, artifact, "--corpus"@, corpus],
        ),
{
    let texts = seq!["--impl"@, artifact, "--corpus"@, corpus];
    let row = as_values(option, texts);
    let side = side_options(option, artifact, corpus);
    lemma_as_values(option, texts);
    lemma_value_at(option, texts, 0);
    lemma_value_at(option, texts, 1);
    lemma_value_at(option, texts, 2);
    lemma_value_at(option, texts, 3);
    assert(row =~= side);
}

/// The comparison that the campaign of one candidate asks for is the one that is run.
#[verifier::spinoff_prover]
#[verifier::rlimit(40)]
pub proof fn candidate_comparisons_are_understood(
    settings: Settings,
    workload: Seq<char>,
    count: u64,
    sessions: u64,
    blocks: usize,
    percentages: Seq<bool>,
)
    requires
        count > 0,
        sessions > 0,
        count * sessions <= u64::MAX,
        blocks >= 2,
        settings.seeds.len() > 0,
    ensures
        design_in(paired_command(settings, workload, count, sessions, blocks), percentages) == Ok::<
            Option<Design>,
            Seq<char>,
        >(Some(asked_of_candidate(settings, workload, count, sessions, blocks))),
{
    let args = paired_command(settings, workload, count, sessions, blocks);
    let asked = asked_of_candidate(settings, workload, count, sessions, blocks);
    let seeds = settings.seeds;
    let corpus = path_in(settings.corpora_dir, workload + ".bin"@);
    let head = seq![
        "--baseline"@,
        settings.bench,
        "--candidate"@,
        settings.bench,
        "--measure"@,
        "scan"@,
        "--direct-args"@,
    ];
    let first = side_options("--baseline-arg"@, settings.baseline_impl, corpus);
    let second = side_options("--candidate-arg"@, settings.candidate_impl, corpus);
    let work = seq![
        "--count"@,
        decimal(count as nat),
        "--sessions"@,
        decimal(sessions as nat),
        "--blocks"@,
        decimal(blocks as nat),
        "--order-seed"@,
        decimal(settings.order_seed as nat),
    ];
    let values = seed_options(seeds);
    let line = head + first + second + work + values;
    lemma_seed_options(seeds);
    lemma_as_values(Opt::Seed.name(), all_decimal(seeds));
    let z: int = 31 + 2 * seeds.len() as int;
    lemma_four_rows(head, first, second, work);
    assert(line.len() == z);
    assert forall|i: int| 0 <= i < z implies args[i] == line[i] by {}
    assert(args.subrange(0, 7) =~= head);
    assert(args.subrange(7, 15) =~= first);
    assert(args.subrange(15, 23) =~= second);
    assert(args.subrange(23, 31) =~= work);
    assert(args.subrange(31, z) =~= values);
    assert forall|i: int| 0 <= i < 7 implies args[i] == head[i] by {
        assert(args.subrange(0, 7)[i] == args[i]);
    }
    assert forall|i: int| 0 <= i < 8 implies args[23 + i] == #[trigger] work[i] by {
        assert(args.subrange(23, 31)[i] == args[23 + i]);
    }
    reveal_strlit("scan");

    let a = Given { baseline: Some(settings.bench), ..nothing_given() };
    lemma_reads_value(args, percentages, 0, nothing_given(), Opt::Baseline, a);
    let b = Given { candidate: Some(settings.bench), ..a };
    lemma_reads_value(args, percentages, 2, a, Opt::Candidate, b);
    let c = Given { measure: Some("scan"@), ..b };
    lemma_reads_value(args, percentages, 4, b, Opt::Measure, c);
    let d = switched(c, Opt::DirectArgs);
    lemma_reads_switch(args, percentages, 6, c, Opt::DirectArgs);
    let ours = seq!["--impl"@, settings.baseline_impl, "--corpus"@, corpus];
    let theirs = seq!["--impl"@, settings.candidate_impl, "--corpus"@, corpus];
    lemma_side_options("--baseline-arg"@, settings.baseline_impl, corpus);
    lemma_side_options("--candidate-arg"@, settings.candidate_impl, corpus);
    let e = collected(d, Opt::BaselineArg, ours);
    lemma_reads_texts(args, percentages, 7, d, Opt::BaselineArg, ours, 4);
    assert(ours.take(4) =~= ours);
    assert(e.baseline_argv =~= ours);
    let f = collected(e, Opt::CandidateArg, theirs);
    lemma_reads_texts(args, percentages, 15, e, Opt::CandidateArg, theirs, 4);
    assert(theirs.take(4) =~= theirs);
    assert(f.candidate_argv =~= theirs);
    let g = Given { count: Some(count), ..f };
    lemma_positive(count as nat);
    assert(args[23] == work[0] && args[24] == work[1]);
    lemma_reads_value(args, percentages, 23, f, Opt::Count, g);
    let h = Given { sessions: Some(sessions), ..g };
    lemma_positive(sessions as nat);
    assert(args[25] == work[2] && args[26] == work[3]);
    lemma_reads_value(args, percentages, 25, g, Opt::Sessions, h);
    let i = Given { blocks: Some(blocks), ..h };
    lemma_positive(blocks as nat);
    assert(args[27] == work[4] && args[28] == work[5]);
    lemma_reads_value(args, percentages, 27, h, Opt::Blocks, i);
    let j = Given { order_seed: Some(settings.order_seed), ..i };
    number_is_read_back(settings.order_seed as nat, u64::MAX as nat);
    assert(args[29] == work[6] && args[30] == work[7]);
    lemma_reads_value(args, percentages, 29, i, Opt::OrderSeed, j);
    lemma_reads_seeds(args, percentages, 31, j, seeds, seeds.len());
    let k = Given { seeds: j.seeds + seeds.take(seeds.len() as int), ..j };
    assert(k.seeds =~= seeds);
    if settings.held_out {
        assert(args[z] == "--held-out"@);
        lemma_reads_switch(args, percentages, z, k, Opt::HeldOut);
        let l = switched(k, Opt::HeldOut);
        assert(options_from(args, percentages, z + 1, l) == Ok::<Option<Given>, Seq<char>>(
            Some(l),
        ));
        assert(designed(l) == asked);
    } else {
        assert(options_from(args, percentages, z, k) == Ok::<Option<Given>, Seq<char>>(Some(k)));
        assert(designed(k) == asked);
    }
}

// ---------------------------------------------------------------------------
// The subject.
// ---------------------------------------------------------------------------

/// The options of the subject are told apart.
#[verifier::spinoff_prover]
proof fn lemma_switches()
    ensures
        switch_named("--impl"@) == Some(Switch::Impl),
        switch_named("--corpus"@) == Some(Switch::Corpus),
        switch_named("--check"@) == Some(Switch::Check),
        switch_named("--measure"@) == Some(Switch::Measure),
        switch_named("--seed"@) == Some(Switch::Seed),
        switch_named("--sessions"@) == Some(Switch::Sessions),
        switch_named("--count"@) == Some(Switch::Count),
        switch_named("--subject-args"@) == Some(Switch::SubjectArgs),
        switch_named("--optiwork-gate-artifact-id"@) == Some(Switch::ArtifactId),
        switch_named("--optiwork-gate-workload-id"@) == Some(Switch::WorkloadId),
        switch_named("-h"@) is None && switch_named("--help"@) is None,
{
    assert("--impl"@.len() == 6 && "--impl"@[2] == 'i' && "--impl"@[3] == 'm') by {
        reveal_strlit("--impl");
    }
    assert("--corpus"@.len() == 8 && "--corpus"@[2] == 'c' && "--corpus"@[3] == 'o') by {
        reveal_strlit("--corpus");
    }
    assert("--check"@.len() == 7 && "--check"@[2] == 'c' && "--check"@[3] == 'h') by {
        reveal_strlit("--check");
    }
    assert("--count-of"@.len() == 10 && "--count-of"@[2] == 'c' && "--count-of"@[3] == 'o') by {
        reveal_strlit("--count-of");
    }
    assert("--measure"@.len() == 9 && "--measure"@[2] == 'm' && "--measure"@[3] == 'e') by {
        reveal_strlit("--measure");
    }
    assert("--seed"@.len() == 6 && "--seed"@[2] == 's' && "--seed"@[3] == 'e') by {
        reveal_strlit("--seed");
    }
    assert("--sessions"@.len() == 10 && "--sessions"@[2] == 's' && "--sessions"@[3] == 'e') by {
        reveal_strlit("--sessions");
    }
    assert("--count"@.len() == 7 && "--count"@[2] == 'c' && "--count"@[3] == 'o') by {
        reveal_strlit("--count");
    }
    assert("--subject-args"@.len() == 14 && "--subject-args"@[2] == 's' && "--subject-args"@[3] == 'u') by {
        reveal_strlit("--subject-args");
    }
    assert("--optiwork-gate-artifact-id"@.len() == 27 && "--optiwork-gate-artifact-id"@[16] == 'a') by {
        reveal_strlit("--optiwork-gate-artifact-id");
    }
    assert("--optiwork-gate-workload-id"@.len() == 27 && "--optiwork-gate-workload-id"@[16] == 'w') by {
        reveal_strlit("--optiwork-gate-workload-id");
    }
    assert("-h"@.len() == 2) by {
        reveal_strlit("-h");
    }
    assert("--help"@.len() == 6 && "--help"@[2] == 'h' && "--help"@[3] == 'e') by {
        reveal_strlit("--help");
    }
}

/// One option and its value are read in one step.
proof fn lemma_takes_value(
    args: Seq<Seq<char>>,
    at: int,
    task: Task,
    switch: Switch,
    more: Task,
)
    requires
        0 <= at,
        at + 1 < args.len(),
        switch_named(args[at]) == Some(switch),
        with_switch(task, switch, args[at + 1]) == Ok::<Task, Seq<char>>(more),
    ensures
        task_from(args, at, task) == task_from(args, at + 2, more),
{
    lemma_switches();
}

/// The work that a runner asks for.
pub open spec fn asked_work(design: Design, seed: u64) -> Task {
    Task {
        measure: Some(design.measure),
        seed: Some(seed),
        sessions: Some(design.sessions),
        count: Some(design.count),
        ..no_task()
    }
}

proof fn lemma_takes_work(design: Design, label: Label, seed: u64)
    ensures
        ({
            let args = command_of(design, label, seed);
            &&& args.len() >= 8
            &&& task_from(args, 0, no_task()) == task_from(args, 8, asked_work(design, seed))
            &&& args.skip(8) == (if design.direct {
                argv_of(design, label)
            } else {
                seq!["--subject-args"@, blob_of(design, label)]
            })
        }),
{
    let args = command_of(design, label, seed);
    assert(args.skip(8) =~= (if design.direct {
        argv_of(design, label)
    } else {
        seq!["--subject-args"@, blob_of(design, label)]
    }));
    lemma_switches();
    number_is_read_back(seed as nat, u64::MAX as nat);
    number_is_read_back(design.sessions as nat, u64::MAX as nat);
    number_is_read_back(design.count as nat, u64::MAX as nat);
    let a = Task { measure: Some(design.measure), ..no_task() };
    lemma_takes_value(args, 0, no_task(), Switch::Measure, a);
    let b = Task { seed: Some(seed), ..a };
    lemma_takes_value(args, 2, a, Switch::Seed, b);
    let c = Task { sessions: Some(design.sessions), ..b };
    lemma_takes_value(args, 4, b, Switch::Sessions, c);
    let d = Task { count: Some(design.count), ..c };
    lemma_takes_value(args, 6, c, Switch::Count, d);
}

/// The subject understands what a runner asks for: the work, and the matcher and the corpus
/// that the opaque arguments name.
pub proof fn opaque_arguments_are_understood(design: Design, label: Label, seed: u64)
    requires
        !design.direct,
    ensures
        ({
            let blob = blob_of(design, label);
            let asked = Task { subject_args: Some(blob), ..asked_work(design, seed) };
            task_in(command_of(design, label, seed)) == Ok::<Task, Seq<char>>(
                merged(asked, words_of(blob), 0),
            )
        }),
{
    let args = command_of(design, label, seed);
    let blob = blob_of(design, label);
    let asked = Task { subject_args: Some(blob), ..asked_work(design, seed) };
    lemma_takes_work(design, label, seed);
    lemma_switches();
    assert(args.skip(8)[0] == args[8] && args.skip(8)[1] == args[9]);
    assert(args.len() == 10) by {
        assert(args.skip(8).len() == 2);
    }
    lemma_takes_value(args, 8, asked_work(design, seed), Switch::SubjectArgs, asked);
    assert(task_from(args, 10, asked) == Ok::<Task, Seq<char>>(asked));
}

/// The same holds of single arguments, also where a name holds white space.
pub proof fn single_arguments_are_understood(
    design: Design,
    label: Label,
    seed: u64,
    matcher: Seq<char>,
    corpus: Seq<char>,
)
    requires
        design.direct,
        argv_of(design, label) == seq!["--impl"@, matcher, "--corpus"@, corpus],
    ensures
        task_in(command_of(design, label, seed)) == Ok::<Task, Seq<char>>(
            (Task {
                impl_name: Some(matcher),
                corpus: Some(corpus),
                ..asked_work(design, seed)
            }),
        ),
{
    let args = command_of(design, label, seed);
    lemma_takes_work(design, label, seed);
    lemma_switches();
    let rest = args.skip(8);
    assert(rest[0] == args[8] && rest[1] == args[9] && rest[2] == args[10] && rest[3] == args[11]);
    assert(args.len() == 12) by {
        assert(rest.len() == 4);
    }
    let a = Task { impl_name: Some(matcher), ..asked_work(design, seed) };
    lemma_takes_value(args, 8, asked_work(design, seed), Switch::Impl, a);
    let b = Task { corpus: Some(corpus), ..a };
    lemma_takes_value(args, 10, a, Switch::Corpus, b);
    assert(task_from(args, 12, b) == Ok::<Task, Seq<char>>(b));
}

/// The subject understands what a gate asks for.
pub proof fn gates_are_understood(
    settings: Settings,
    artifact: Seq<char>,
    workload: Seq<char>,
)
    ensures
        task_in(gate_command(settings, artifact, workload)) == Ok::<Task, Seq<char>>(
            (Task {
                impl_name: Some(artifact),
                corpus: Some(path_in(settings.corpora_dir, workload + ".bin"@)),
                check: Some(path_in(settings.corpora_dir, workload + ".golden"@)),
                gate_artifact_id: Some(artifact),
                gate_workload_id: Some(workload),
                ..no_task()
            }),
        ),
{
    let args = gate_command(settings, artifact, workload);
    lemma_switches();
    let a = Task { impl_name: Some(artifact), ..no_task() };
    lemma_takes_value(args, 0, no_task(), Switch::Impl, a);
    let b = Task { corpus: Some(path_in(settings.corpora_dir, workload + ".bin"@)), ..a };
    lemma_takes_value(args, 2, a, Switch::Corpus, b);
    let c = Task { check: Some(path_in(settings.corpora_dir, workload + ".golden"@)), ..b };
    lemma_takes_value(args, 4, b, Switch::Check, c);
    let d = Task { gate_artifact_id: Some(artifact), ..c };
    lemma_takes_value(args, 6, c, Switch::ArtifactId, d);
    let e = Task { gate_workload_id: Some(workload), ..d };
    lemma_takes_value(args, 8, d, Switch::WorkloadId, e);
    assert(task_from(args, 10, e) == Ok::<Task, Seq<char>>(e));
}

}
