//! Paired comparisons: the command line, the observations and the report.
use optiwork::arguments::{parse_args, parse_positive_u64, parse_schedule, Arguments};
use optiwork::paired::{
    block_line, calibration_line, check_output, command_args, evidence, experiment, invalid_line,
    observation_line, observe, plan_line, result_line, scope, too_few_blocks, Finish, RatioText,
    Run, SummaryText,
};
use optiwork::record::{randomized_schedule, BlockOrder, Label};

fn arguments(values: &[&str]) -> Result<Option<Arguments>, String> {
    let args: Vec<String> = values.iter().map(|value| (*value).to_owned()).collect();
    let percentages: Vec<bool> = values
        .iter()
        .map(|value| matches!(value.parse::<f64>(), Ok(n) if n.is_finite() && n > 0.0))
        .collect();
    parse_args(&args, &percentages)
}

fn accepted(values: &[&str]) -> Arguments {
    arguments(values).unwrap().unwrap()
}

fn complaint(values: &[&str]) -> String {
    arguments(values).unwrap_err()
}

#[test]
fn explicit_ab_and_aa_arguments_are_unambiguous() {
    let ab = arguments(&[
        "--baseline",
        "/tmp/a",
        "--candidate",
        "/tmp/b",
        "--measure",
        "scan",
        "--subject-args",
        "--impl thompson --corpus main.bin",
        "--count",
        "123",
        "--sessions",
        "7",
        "--seed",
        "7",
        "--seed",
        "9",
        "--schedule",
        "ABBA,BAAB",
    ])
    .unwrap()
    .unwrap();
    assert_eq!(ab.baseline, "/tmp/a");
    assert_eq!(ab.candidate, "/tmp/b");
    assert!(!ab.calibration);
    assert_eq!(ab.measure, "scan");
    assert_eq!(ab.subject_args, "--impl thompson --corpus main.bin");
    assert_eq!(ab.count, 123);
    assert_eq!(ab.sessions, 7);
    assert_eq!(ab.seeds, [7, 9]);
    assert_eq!(ab.schedule, [BlockOrder::Abba, BlockOrder::Baab]);
    assert_eq!(ab.order_seed, None);
}

#[test]
fn parser_rejects_partial_or_conflicting_designs() {
    assert!(arguments(&[]).is_err());
    assert!(arguments(&["--baseline", "a"]).is_err());
    assert!(arguments(&["--aa", "a", "--baseline", "a", "--candidate", "b"]).is_err());
    assert!(arguments(&["--aa", "a", "--blocks", "1"]).is_err());
    assert!(
        arguments(&["--aa", "a", "--schedule", "ABBA,BAAB", "--order-seed", "2",]).is_err()
    );
    assert!(arguments(&["--aa", "a", "--count", "0"]).is_err());
    assert!(arguments(&["--aa", "a", "--sessions", "0"]).is_err());
    assert!(arguments(&["--aa", "a", "--held-out"]).is_err());
}

#[test]
fn what_is_not_given_has_a_default() {
    let aa = accepted(&["--aa", "bench"]);
    assert_eq!((aa.baseline.as_str(), aa.candidate.as_str()), ("bench", "bench"));
    assert!(aa.calibration && !aa.held_out && !aa.direct);
    assert_eq!(aa.measure, "scan");
    assert_eq!(aa.subject_args, "");
    assert_eq!((aa.count, aa.sessions), (10_000, 50));
    assert_eq!(aa.seeds, [42]);
    assert_eq!(aa.order_seed, Some(1));
    assert_eq!(aa.schedule, randomized_schedule(16, 1));
    assert_eq!(aa.target_speedup, None);
    assert_eq!(arguments(&["--nonsense", "-h"]).unwrap_err(), "unknown option `--nonsense`");
    assert_eq!(arguments(&["--count", "5", "--help", "--nonsense"]), Ok(None));
}

#[test]
fn each_bad_command_line_has_its_complaint() {
    let ab = ["--baseline", "a", "--candidate", "b"];
    let with = |more: &[&str]| complaint(&[&ab[..], more].concat());
    assert_eq!(with(&["--aa", "c"]), "`--aa` cannot be combined with `--baseline` or `--candidate`");
    assert_eq!(
        complaint(&["--baseline", "a"]),
        "provide both `--baseline` and `--candidate`, or use `--aa`"
    );
    assert_eq!(with(&["--baseline", "c"]), "`--baseline` specified more than once");
    assert_eq!(with(&["--held-out", "--held-out"]), "`--held-out` specified more than once");
    // A repeated option is refused before its missing value is.
    assert_eq!(with(&["--count", "1", "--count"]), "`--count` specified more than once");
    assert_eq!(with(&["--count"]), "missing value after `--count`");
    assert_eq!(with(&["--measure", ""]), "`--measure` must not be empty");
    assert_eq!(with(&["--count", "x"]), "count must be a positive integer");
    assert_eq!(with(&["--sessions", "0"]), "sessions must be a positive integer");
    assert_eq!(with(&["--blocks", "-1"]), "blocks must be a positive integer");
    assert_eq!(with(&["--seed", "x"]), "seed must be a non-negative integer");
    assert_eq!(with(&["--order-seed", ""]), "order seed must be a non-negative integer");
    assert_eq!(with(&["--schedule", ""]), "schedule must contain ABBA or BAAB blocks");
    assert_eq!(
        with(&["--schedule", "ABBA,AB,BA"]),
        "invalid block order `AB`; expected `ABBA` or `BAAB`"
    );
    for bad in ["0", "-3", "inf", "NaN", "fast"] {
        assert_eq!(
            with(&["--target-speedup", bad]),
            "target speedup must be a positive percentage"
        );
    }
    assert_eq!(with(&["--timeout-ms", "0"]), "timeout milliseconds must be a positive integer");
    assert_eq!(
        with(&["--max-output-bytes", "67108865"]),
        "maximum output bytes must not exceed 67108864"
    );
    assert_eq!(
        with(&["--schedule", "ABBA", "--blocks", "2"]),
        "`--schedule` cannot be combined with `--blocks` or `--order-seed`"
    );
    assert_eq!(
        with(&["--schedule", "ABBA"]),
        "at least two blocks are required for a confidence bound"
    );
    assert_eq!(
        with(&["--count", "18446744073709551615", "--sessions", "2"]),
        "count times sessions overflowed"
    );
    assert_eq!(
        with(&["--baseline-arg", "x", "--candidate-args", "y"]),
        "direct arguments cannot be combined with `--subject-args`, `--baseline-args`, or `--candidate-args`"
    );
    let aa = |more: &[&str]| complaint(&[&["--aa", "a"][..], more].concat());
    assert_eq!(aa(&["--held-out"]), "`--held-out` cannot be combined with `--aa`");
    assert_eq!(
        aa(&["--baseline-args", "x"]),
        "`--baseline-args`/`--candidate-args` cannot be combined with `--aa`"
    );
    assert_eq!(
        aa(&["--candidate-arg", "x"]),
        "`--baseline-arg`/`--candidate-arg` cannot be combined with `--aa`"
    );
}

#[test]
fn values_are_parsed_on_their_own() {
    assert_eq!(parse_positive_u64("5", "width"), Ok(5));
    assert_eq!(parse_positive_u64("0", "width"), Err("width must be a positive integer".to_owned()));
    assert_eq!(
        parse_schedule("abba, BAAB"),
        Ok(vec![BlockOrder::Abba, BlockOrder::Baab])
    );
    assert!(parse_schedule("ABBA,").is_err());
}

#[test]
fn each_side_has_its_own_arguments_or_those_of_both() {
    let one = accepted(&[
        "--baseline", "a", "--candidate", "b", "--subject-args", "both", "--candidate-args", "own",
    ]);
    assert_eq!(one.args_for(Label::Baseline), "both");
    assert_eq!(one.args_for(Label::Candidate), "own");
    assert_eq!(one.binary_for(Label::Baseline), "a");
    assert_eq!(one.binary_for(Label::Candidate), "b");
    assert_eq!(
        command_args(&one, Label::Candidate, 9),
        [
            "--measure", "scan", "--seed", "9", "--sessions", "50", "--count", "10000",
            "--subject-args", "own"
        ]
    );
    let direct = accepted(&[
        "--baseline", "a", "--candidate", "b", "--baseline-arg", "--elapsed", "--baseline-arg",
        "2 0", "--subject-arg", "x",
    ]);
    assert!(direct.direct);
    assert_eq!(*direct.argv_for(Label::Baseline), ["--elapsed", "2 0"]);
    assert_eq!(*direct.argv_for(Label::Candidate), ["x"]);
    assert_eq!(command_args(&direct, Label::Baseline, 1)[8..], ["--elapsed", "2 0"]);
    assert_eq!(command_args(&direct, Label::Candidate, 1).len(), 9);
}

#[test]
fn the_plan_says_everything() {
    let ab = accepted(&[
        "--baseline", "a", "--candidate", "b", "--subject-args", "s", "--baseline-args", "x",
        "--candidate-args", "y", "--seed", "7", "--seed", "9", "--schedule", "ABBA,BAAB",
        "--held-out",
    ]);
    assert_eq!(
        plan_line(&ab),
        "PLAN experiment=AB scope=held_out_confirmation mode=scan subject_args=\"s\" baseline_args=\"x\" candidate_args=\"y\" count=10000 sessions=50 blocks=2 order_source=explicit schedule=ABBA,BAAB seeds=7,9"
    );
    let direct = accepted(&[
        "--baseline", "a", "--candidate", "b", "--measure", "protocol-only", "--direct-args",
        "--blocks", "2", "--order-seed", "5",
    ]);
    let plan = plan_line(&direct);
    assert!(plan.starts_with("PLAN experiment=AB scope=exploratory_per_candidate "));
    assert!(plan.contains(
        "mode=protocol-only argument_transport=direct baseline_argv=[] candidate_argv=[]"
    ));
    assert!(plan.contains("blocks=2 order_source=random:5 "));
    let listed = accepted(&[
        "--baseline", "a", "--candidate", "b", "--baseline-arg", "--elapsed", "--baseline-arg",
        "200000", "--candidate-arg", "--elapsed", "--candidate-arg", "100000",
    ]);
    let plan = plan_line(&listed);
    assert!(plan.contains("baseline_argv=[\"--elapsed\", \"200000\"]"));
    assert!(plan.contains("candidate_argv=[\"--elapsed\", \"100000\"]"));
    let aa = accepted(&["--aa", "a"]);
    assert_eq!((experiment(&aa), scope(&aa)), ("AA", "calibration"));
}

fn small() -> Arguments {
    accepted(&[
        "--baseline", "a", "--candidate", "b", "--count", "10", "--sessions", "2", "--seed", "42",
        "--seed", "13", "--schedule", "ABBA,BAAB,ABBA", "--timeout-ms", "250",
        "--max-output-bytes", "256",
    ])
}

fn record(mode: &str, seed: u64, warmup: u64, completed: u64) -> String {
    format!("optiwork-fixed-v1\tmode={mode}\tseed={seed}\tcount=10\tsessions=2\twarmup_sessions={warmup}\trequested=20\tcompleted={completed}\tattempts=2\telapsed_ns=1000\toutput_bytes=5\n")
}

#[test]
fn only_the_work_that_was_asked_for_is_an_observation() {
    let design = small();
    let good = check_output(&design, Label::Baseline, 42, &record("scan", 42, 1, 20)).unwrap();
    assert_eq!((good.elapsed_ns, good.completed), (1000, 20));
    let fails = |text: &str| check_output(&design, Label::Candidate, 42, text).unwrap_err();
    assert_eq!(fails(&record("slow", 42, 1, 20)), "b reported mode slow instead of scan");
    assert_eq!(
        fails(&record("scan", 43, 1, 20)),
        "b reported mismatched work (seed=43, count=10, sessions=2, warmup_sessions=1, requested=20, completed=20)"
    );
    assert!(fails(&record("scan", 42, 2, 20)).contains("mismatched work"));
    assert!(fails(&record("scan", 42, 1, 19)).contains("completed=19"));
    assert_eq!(fails("old\n"), "unsupported measurement record version `old`");
}

#[test]
fn every_other_end_of_a_process_is_a_failure() {
    let design = small();
    let fails = |finish: Finish| observe(&design, Label::Baseline, 42, &finish).unwrap_err();
    assert_eq!(fails(Finish::NotRun("no such file".to_owned())), "could not run a: no such file");
    assert_eq!(fails(Finish::TimedOut), "a timed out after 250 ms");
    assert_eq!(
        fails(Finish::Overflowed("stderr".to_owned())),
        "a stderr exceeded --max-output-bytes limit of 256"
    );
    assert_eq!(
        fails(Finish::Failed("exit status: 3".to_owned(), b"bad\nnews\n".to_vec())),
        "a exited with exit status: 3; stderr: bad news"
    );
    assert_eq!(fails(Finish::Wrote(vec![0xff])), "a emitted non-UTF-8 output");
    let good = Finish::Wrote(record("scan", 42, 1, 20).into_bytes());
    assert_eq!(observe(&design, Label::Baseline, 42, &good).unwrap().attempts, 2);
}

#[test]
fn a_run_makes_every_block_once_and_replaces_none() {
    let design = small();
    let mut run = Run::new(&design);
    let mut seen = Vec::new();
    let mut blocks = Vec::new();
    while let Some(turn) = run.next() {
        // The candidate fails on the second seed.
        let ok = !(turn.seed == 13 && turn.label == Label::Candidate);
        seen.push((turn.block, turn.position, turn.label, turn.order, turn.seed));
        if let Some(valid) = run.record(ok) {
            blocks.push(valid);
        }
    }
    assert_eq!(seen.len(), 12);
    assert_eq!(seen[0], (1, 1, Label::Baseline, BlockOrder::Abba, 42));
    assert_eq!(seen[4], (2, 1, Label::Candidate, BlockOrder::Baab, 13));
    assert_eq!(seen[11], (3, 4, Label::Baseline, BlockOrder::Abba, 42));
    assert_eq!(blocks, [true, false, true]);
    assert_eq!(run.counted(), (2, 1));
}

#[test]
fn evidence_is_earned_by_a_complete_run() {
    let explored = small();
    let held = accepted(&["--baseline", "a", "--candidate", "b", "--held-out"]);
    let aa = accepted(&["--aa", "a"]);
    assert_eq!(evidence(&explored, 0, true), "screen_positive");
    assert_eq!(evidence(&explored, 0, false), "screen_inconclusive");
    assert_eq!(evidence(&held, 0, true), "candidate_faster");
    assert_eq!(evidence(&held, 0, false), "inconclusive");
    assert_eq!(evidence(&aa, 0, true), "calibration_only");
    for design in [&explored, &held, &aa] {
        assert_eq!(evidence(design, 1, true), "invalid_design");
    }
}

#[test]
fn what_happened_is_reported_line_by_line() {
    let design = small();
    let run = Run::new(&design);
    let turn = run.next().unwrap();
    let observed = check_output(&design, Label::Baseline, 42, &record("scan", 42, 1, 20)).unwrap();
    assert_eq!(
        observation_line(&turn, &observed, "2.5"),
        "OBS block=1 position=1 label=A order=ABBA seed=42 elapsed_ns=1000 items_per_second=2.5 attempts=2 output_bytes=5"
    );
    assert_eq!(
        invalid_line(&turn, "why"),
        "INVALID block=1 position=1 label=A order=ABBA seed=42: why"
    );
    assert_eq!(block_line(2, &None), "BLOCK block=2 valid=false");
    let ratio = RatioText {
        log_ratio: "0.5".to_owned(),
        speedup_ratio: "1.6".to_owned(),
        speedup_percent: "60".to_owned(),
    };
    assert_eq!(
        block_line(1, &Some(ratio)),
        "BLOCK block=1 valid=true log_ratio=0.5 speedup_ratio=1.6 speedup_percent=60"
    );
    assert_eq!(
        result_line(&design, 0, 3, &None, false),
        "RESULT experiment=AB scope=exploratory_per_candidate mode=scan valid_blocks=0 planned_blocks=3 invalid_blocks=3 evidence=invalid_design"
    );
    let summary = SummaryText {
        mean_log_ratio: "1".to_owned(),
        log_ratio_sd: "2".to_owned(),
        speedup_ratio: "3".to_owned(),
        speedup_percent: "4".to_owned(),
        lower_ratio: "5".to_owned(),
        lower_percent: "6".to_owned(),
    };
    assert_eq!(
        result_line(&design, 3, 0, &Some(summary), true),
        "RESULT experiment=AB scope=exploratory_per_candidate mode=scan valid_blocks=3 planned_blocks=3 invalid_blocks=0 mean_log_ratio=1 log_ratio_sd=2 speedup_ratio=3 speedup_percent=4 lower_95_one_sided_ratio=5 lower_95_one_sided_percent=6 evidence=screen_positive"
    );
    assert_eq!(
        calibration_line("3.000", 7),
        "CALIBRATION target_speedup_percent=3.000 approximate_blocks_for_80_percent_power=7"
    );
    assert_eq!(too_few_blocks(1), "only 1 valid block(s); at least two are required");
}
