//! The measured subject, and what the runner and the campaign make of its answers.
use optiwork::arguments::{parse_args as parse_comparison, Arguments};
use optiwork::campaign::{gate_args, judge_gate, verdict_from, Gate, GateExit};
use optiwork::config::parse_args as parse_config;
use optiwork::corpus::{GoldenPair, Pair};
use optiwork::echo::{check_plan, check_result, Registration};
use optiwork::engine::Impl;
use optiwork::oracle::{golden_for, self_check};
use optiwork::paired::{check_output, command_args, plan_line, result_line, SummaryText};
use optiwork::record::{
    parse_fixed_record, randomized_schedule, record_line, BlockOrder, FixedRecord, Label,
    ScheduleRng,
};
use optiwork::scan::Span;
use optiwork::subject::{
    check, compile_all, gate_settings, inputs, measured, parse_args, permute, prepare, run_check,
    run_sessions, scan_once, Answer, SubjectConfig,
};

fn texts(values: &[&str]) -> Vec<String> {
    values.iter().map(|value| (*value).to_owned()).collect()
}

fn config(values: &[&str]) -> SubjectConfig {
    parse_args(&texts(values)).unwrap()
}

fn pairs(entries: &[(&str, &str)]) -> Vec<Pair> {
    entries
        .iter()
        .map(|(pattern, input)| Pair {
            pattern: (*pattern).to_owned(),
            input: input.as_bytes().to_vec(),
        })
        .collect()
}

#[test]
fn the_subject_reads_its_command_line() {
    let all = config(&[
        "--impl", "naive", "--corpus", "a.bin", "--check", "a.golden", "--count-of", "b.bin",
        "--measure", "scan", "--seed", "7", "--sessions", "3", "--count", "11",
        "--optiwork-gate-artifact-id", "art", "--optiwork-gate-workload-id", "work",
    ]);
    assert_eq!(all.impl_name.as_deref(), Some("naive"));
    assert_eq!(all.corpus.as_deref(), Some("a.bin"));
    assert_eq!(all.check.as_deref(), Some("a.golden"));
    assert_eq!(all.count_of.as_deref(), Some("b.bin"));
    assert_eq!(all.measure.as_deref(), Some("scan"));
    assert_eq!((all.seed, all.sessions, all.count), (Some(7), Some(3), Some(11)));
    assert_eq!(all.gate_artifact_id.as_deref(), Some("art"));
    assert_eq!(all.gate_workload_id.as_deref(), Some("work"));

    let complaint = |values: &[&str]| parse_args(&texts(values)).unwrap_err();
    assert_eq!(complaint(&["--help"]), "__help__");
    assert_eq!(complaint(&["--impl", "naive", "-h"]), "__help__");
    assert_eq!(complaint(&["--what"]), "unknown option `--what`");
    assert_eq!(complaint(&["--impl"]), "missing value after `--impl`");
    assert_eq!(complaint(&["--seed", "x"]), "seed must be an integer");
    assert_eq!(complaint(&["--sessions", "-1"]), "sessions must be an integer");
    assert_eq!(complaint(&["--count", ""]), "count must be an integer");
}

#[test]
fn forwarded_arguments_override_those_before_them() {
    let merged = config(&[
        "--subject-args",
        "--impl thompson  --other x --corpus main.bin",
        "--impl",
        "naive",
    ]);
    assert_eq!(merged.impl_name.as_deref(), Some("thompson"));
    assert_eq!(merged.corpus.as_deref(), Some("main.bin"));
    // An option at the very end has no value to take.
    let cut = config(&["--corpus", "a.bin", "--subject-args", "--corpus"]);
    assert_eq!(cut.corpus, None);
}

/// The generator and the shuffle, written down once more.
fn shuffled(seed: u64, n: usize) -> Vec<usize> {
    let mut state = seed;
    let mut order: Vec<usize> = (0..n).collect();
    for j in (1..n).rev() {
        state = state.wrapping_add(0x9e37_79b9_7f4a_7c15);
        let mut z = state;
        z = (z ^ (z >> 30)).wrapping_mul(0xbf58_476d_1ce4_e5b9);
        z = (z ^ (z >> 27)).wrapping_mul(0x94d0_49bb_1331_11eb);
        let k = ((z ^ (z >> 31)) as usize) % (j + 1);
        order.swap(j, k);
    }
    order
}

#[test]
fn every_pair_is_visited_once_in_a_reproducible_order() {
    for seed in [0, 1, 42, u64::MAX] {
        for n in [0, 1, 2, 9, 40] {
            let order = permute(&mut ScheduleRng::new(seed), n);
            assert_eq!(order, shuffled(seed, n));
            let mut sorted = order;
            sorted.sort_unstable();
            assert_eq!(sorted, (0..n).collect::<Vec<_>>());
        }
    }
}

#[test]
fn a_scan_counts_what_its_matches_cover() {
    let corpus = pairs(&[("a+", "aaba"), ("b", "xxx"), ("x*", "xx")]);
    let compiled = compile_all(&corpus).unwrap();
    let mut out = vec![Span::new(0, 1)];
    let mut rng = ScheduleRng::new(5);
    assert_eq!(
        scan_once(Impl::Naive, &compiled, &corpus, &mut rng, &mut out),
        (3, 5)
    );
    // What is left is what was found in the pair that was visited last.
    let last = *shuffled(5, 3).last().unwrap();
    let mut found = Vec::new();
    Impl::Naive.find_all(&compiled[last], &corpus[last].input, &mut found);
    assert_eq!(out, found);

    let mut rng = ScheduleRng::new(5);
    assert_eq!(
        run_sessions(Impl::Thompson, &compiled, &corpus, 4, &mut rng),
        (12, 20)
    );
    assert_eq!(
        run_sessions(Impl::Thompson, &compiled, &corpus, 0, &mut rng),
        (0, 0)
    );
    let nothing = Vec::new();
    let mut kept = vec![Span::new(1, 2)];
    assert_eq!(
        scan_once(Impl::Naive, &Vec::new(), &nothing, &mut rng, &mut kept),
        (0, 0)
    );
    assert_eq!(kept, [Span::new(1, 2)]);
}

#[test]
fn the_first_bad_pattern_is_the_complaint() {
    let corpus = pairs(&[("a", ""), ("a)", ""), ("(", "")]);
    let expected = optiwork::ast::Regex::new("a)").unwrap_err();
    assert_eq!(compile_all(&corpus).unwrap_err(), expected);
    assert_eq!(compile_all(&Vec::new()).unwrap().len(), 0);
}

#[test]
fn a_run_needs_a_matcher_and_a_corpus() {
    assert_eq!(
        inputs(&config(&["--corpus", "c"]), "timed run").unwrap_err(),
        "timed run requires `--impl`"
    );
    assert_eq!(
        inputs(&config(&["--impl", "fast"]), "timed run").unwrap_err(),
        "unknown impl `fast` (expected naive|thompson|prefilter)"
    );
    assert_eq!(
        inputs(&config(&["--impl", "naive"]), "gate run").unwrap_err(),
        "gate run requires `--corpus`"
    );
    let (matcher, corpus) = inputs(
        &config(&["--impl", "prefilter", "--corpus", "c.bin"]),
        "timed run",
    )
    .unwrap();
    assert_eq!(matcher, Impl::Prefilter);
    assert_eq!(corpus, "c.bin");

    let missing = |values: &[&str]| gate_settings(&config(values)).unwrap_err();
    assert_eq!(missing(&[]), "gate run requires `--check`");
    assert_eq!(
        missing(&["--check", "g"]),
        "gate run requires `--optiwork-gate-artifact-id`"
    );
    assert_eq!(
        missing(&["--check", "g", "--optiwork-gate-artifact-id", "a"]),
        "gate run requires `--optiwork-gate-workload-id`"
    );
}

#[test]
fn each_unfit_timed_run_has_its_complaint() {
    let corpus = pairs(&[("a", "aaa"), ("b", "bb")]);
    let complaint = |values: &[&str], corpus: &Vec<Pair>| match prepare(&config(values), corpus) {
        Ok(_) => panic!("the run is fit"),
        Err(e) => e,
    };
    assert_eq!(complaint(&[], &Vec::new()), "corpus contains no pairs");
    assert_eq!(complaint(&[], &corpus), "missing `--sessions`");
    assert_eq!(complaint(&["--sessions", "1"], &corpus), "missing `--seed`");
    assert_eq!(
        complaint(&["--sessions", "1", "--seed", "1"], &corpus),
        "missing `--count`"
    );
    assert_eq!(
        complaint(&["--sessions", "1", "--seed", "1", "--count", "6"], &corpus),
        "corpus has 5 bytes but `--count` was 6; the runner's work check would fail"
    );
    assert_eq!(
        complaint(
            &["--sessions", "18446744073709551615", "--seed", "1", "--count", "5"],
            &corpus
        ),
        "count times sessions overflowed"
    );
    let bad = pairs(&[("(", "")]);
    assert_eq!(
        complaint(&[], &bad),
        optiwork::ast::Regex::new("(").unwrap_err()
    );
}

fn comparison(values: &[&str]) -> Arguments {
    let args = texts(values);
    let percentages = vec![false; args.len()];
    parse_comparison(&args, &percentages).unwrap().unwrap()
}

#[test]
fn the_record_of_a_subject_is_accepted_by_its_runner() {
    let corpus = pairs(&[("a", "aaa"), ("b", "bb")]);
    let told = config(&["--sessions", "2", "--seed", "9", "--count", "5"]);
    let timed = prepare(&told, &corpus).unwrap();
    assert_eq!(timed.mode, "scan");
    assert_eq!(timed.requested, 10);
    assert_eq!(
        measured(&timed, 4, 0, 10).unwrap_err(),
        "timed region took zero nanoseconds"
    );
    let record = measured(&timed, 4, 1000, 10).unwrap();
    let line = record_line(&record, "10000000");
    assert_eq!(
        line,
        "optiwork-fixed-v1\tmode=scan\tseed=9\tcount=5\tsessions=2\twarmup_sessions=1\trequested=10\tcompleted=10\tattempts=4\telapsed_ns=1000\titems_per_second=10000000\toutput_bytes=10"
    );
    let output = format!("{line}\n");
    assert_eq!(parse_fixed_record(&output), Ok(record));
    let asked = comparison(&["--aa", "bench", "--count", "5", "--sessions", "2", "--seed", "9"]);
    assert!(check_output(&asked, Label::Candidate, 9, &output).is_ok());
    assert!(check_output(&asked, Label::Candidate, 8, &output).is_err());
}

#[test]
fn a_record_is_read_back_as_it_was_written() {
    let record = FixedRecord {
        mode: "find first".to_owned(),
        seed: u64::MAX,
        count: 0,
        sessions: 1,
        warmup_sessions: 2,
        requested: 3,
        completed: 4,
        attempts: 5,
        elapsed_ns: u128::MAX,
        output_bytes: 6,
    };
    let output = format!("{}\n", record_line(&record, "1e9"));
    assert_eq!(parse_fixed_record(&output), Ok(record));
}

fn golden(entries: &[(&str, &str)]) -> Vec<GoldenPair> {
    golden_for(&pairs(entries)).unwrap()
}

#[test]
fn a_gate_answers_with_its_evidence_or_with_what_is_different() {
    let entries = [("a+", "aab"), ("b", "abb"), ("c", "x")];
    let corpus = pairs(&entries);
    let right = golden(&entries);
    let answer = run_check(Impl::Prefilter, &corpus, &right, "fast", "main").unwrap();
    let line =
        "optiwork-gate-v1\tstatus=equivalent\tartifact_id=fast\tworkload_id=main\tchecked_units=3";
    assert_eq!(answer, Answer::Equivalent(line.to_owned()));
    assert_eq!(
        judge_gate(&GateExit::Status(0), &format!("{line}\n"), "fast", "main"),
        Gate::Equivalent
    );

    let mut wrong = golden(&entries);
    wrong[1].spans.clear();
    wrong[2].spans.push(Span::new(0, 1));
    assert_eq!(check(Impl::Naive, &corpus, &wrong), Ok(vec![(1, 2), (2, 0)]));
    assert_eq!(
        run_check(Impl::Naive, &corpus, &wrong, "fast", "main").unwrap(),
        Answer::Different(texts(&[
            "MISMATCH impl=naive pair=1 pattern=\"b\" input_len=3 expected=0 got=2",
            "MISMATCH impl=naive pair=2 pattern=\"c\" input_len=1 expected=1 got=0",
            "FAIL impl=naive mismatched_pairs=2/3",
        ]))
    );
}

#[test]
fn a_failed_gate_shows_five_pairs_and_counts_all() {
    let entries = [("a", "a"); 7];
    let corpus = pairs(&entries);
    let mut wrong = golden(&entries);
    for pair in &mut wrong {
        pair.spans.clear();
    }
    let answer = run_check(Impl::Thompson, &corpus, &wrong, "x", "y").unwrap();
    let Answer::Different(lines) = answer else {
        panic!("it passed");
    };
    assert_eq!(lines.len(), 6);
    assert!(lines[4].starts_with("MISMATCH impl=thompson pair=4 "));
    assert_eq!(lines[5], "FAIL impl=thompson mismatched_pairs=7/7");
}

#[test]
fn a_gate_without_a_fitting_corpus_has_a_complaint() {
    let one = pairs(&[("a", "a")]);
    let complaint = |corpus: &Vec<Pair>, golden: &Vec<GoldenPair>| {
        run_check(Impl::Naive, corpus, golden, "a", "w").unwrap_err()
    };
    assert_eq!(complaint(&Vec::new(), &Vec::new()), "gate corpus contains no pairs");
    assert_eq!(
        complaint(&one, &golden(&[("a", "a"), ("b", "b")])),
        "corpus has 1 pairs but golden has 2; they do not match"
    );
    assert_eq!(
        complaint(&pairs(&[("*", "a")]), &golden(&[("a", "a")])),
        optiwork::ast::Regex::new("*").unwrap_err()
    );
}

#[test]
fn golden_vectors_are_compared_pair_by_pair() {
    let entries = [("a+", "aab"), ("b", "abb")];
    let written = golden(&entries);
    assert!(self_check(&written, &golden(&entries)));
    // A pair that got lost is noticed.
    assert!(!self_check(&written, &golden(&entries[..1])));
    assert!(!self_check(&golden(&entries[..1]), &written));
    let mut other = golden(&entries);
    other[1].spans.clear();
    assert!(!self_check(&written, &other));
    let mut other = golden(&entries);
    other[0].input.push(b'x');
    assert!(!self_check(&written, &other));
    let mut other = golden(&entries);
    other[0].pattern.push('x');
    assert!(!self_check(&written, &other));
}

#[test]
fn schedules_of_known_seeds() {
    assert_eq!(randomized_schedule(2, 731), [BlockOrder::Abba, BlockOrder::Abba]);
    assert_eq!(randomized_schedule(2, 11), [BlockOrder::Baab, BlockOrder::Baab]);
    assert_eq!(randomized_schedule(2, 77), [BlockOrder::Baab, BlockOrder::Abba]);
}

fn registration() -> Registration {
    Registration {
        experiment: "AB".to_owned(),
        scope: "exploratory_per_candidate".to_owned(),
        measure: "scan".to_owned(),
        count: 10,
        sessions: 2,
        blocks: 2,
        order_seed: 11,
        seeds: vec![42, 43],
    }
}

fn registered() -> Arguments {
    comparison(&[
        "--baseline", "a", "--candidate", "b", "--count", "10", "--sessions", "2", "--blocks",
        "2", "--order-seed", "11", "--seed", "42", "--seed", "43", "--baseline-arg",
        "x count=99 seeds=7", "--candidate-arg", "schedule=no",
    ])
}

#[test]
fn a_campaign_accepts_the_plan_that_it_registered() {
    let plan = plan_line(&registered());
    assert!(plan.contains("schedule=BAAB,BAAB seeds=42,43"));
    assert_eq!(check_plan(&format!("{plan}\nOBS\n"), &registration()), Ok(()));
    let fuller = "PLAN protocol=optiwork-paired-v1 experiment=AB scope=exploratory_per_candidate mode=scan argument_transport=direct baseline_argv=[] candidate_argv=[] count=10 sessions=2 requested=20 blocks=2 order_source=random:11 schedule=BAAB,BAAB seeds=42,43 timeout_ms=1 max_output_bytes_per_stream=4096\n";
    assert_eq!(check_plan(fuller, &registration()), Ok(()));

    assert_eq!(
        check_plan("OBS\n", &registration()).unwrap_err(),
        "optikit-paired produced no PLAN line"
    );
    let other = |change: &dyn Fn(&mut Registration)| {
        let mut registration = registration();
        change(&mut registration);
        check_plan(&plan, &registration).unwrap_err()
    };
    let echo = |key: &str| format!("PLAN does not echo the registered `{key}`");
    assert_eq!(other(&|r| r.experiment = "AA".to_owned()), echo("experiment"));
    assert_eq!(other(&|r| r.scope = "calibration".to_owned()), echo("scope"));
    assert_eq!(other(&|r| r.measure = "find".to_owned()), echo("mode"));
    assert_eq!(other(&|r| r.count = 99), echo("count"));
    assert_eq!(other(&|r| r.sessions = 3), echo("sessions"));
    assert_eq!(other(&|r| r.blocks = 3), echo("blocks"));
    assert_eq!(other(&|r| r.order_seed = 12), echo("order_source"));
    assert_eq!(other(&|r| r.seeds = vec![7]), echo("seeds"));
    let reordered = plan.replace("BAAB,BAAB", "ABBA,BAAB");
    assert_eq!(check_plan(&reordered, &registration()).unwrap_err(), echo("schedule"));
}

fn summary() -> SummaryText {
    SummaryText {
        mean_log_ratio: "0.1".to_owned(),
        log_ratio_sd: "0.2".to_owned(),
        speedup_ratio: "1.1".to_owned(),
        speedup_percent: "10.000".to_owned(),
        lower_ratio: "1.05".to_owned(),
        lower_percent: "5.000".to_owned(),
    }
}

#[test]
fn a_campaign_reads_the_result_that_was_reported() {
    let arguments = registered();
    let line = result_line(&arguments, 2, 0, &Some(summary()), true);
    let output = format!("{}\nOBS\nBLOCK\n{line}\n", plan_line(&arguments));
    let verdict = verdict_from(&output).unwrap();
    assert_eq!(verdict.lower_95_ratio, "1.05");
    assert_eq!(verdict.speedup_percent.as_deref(), Some("10.000"));
    assert_eq!(verdict.evidence, "screen_positive");
    assert_eq!(check_result(&output, &registration()), Ok(()));

    let bare = result_line(&arguments, 0, 2, &None, false);
    assert!(bare.ends_with("invalid_blocks=2 evidence=invalid_design"));
    assert_eq!(
        verdict_from(&bare).unwrap_err(),
        "RESULT missing lower_95_one_sided_ratio"
    );
}

#[test]
fn a_campaign_accepts_only_complete_results() {
    let arguments = registered();
    let fit = |key: &str| format!("RESULT does not fit the registered `{key}`");
    let partial = result_line(&arguments, 1, 1, &Some(summary()), true);
    assert_eq!(check_result(&partial, &registration()).unwrap_err(), fit("valid_blocks"));
    let whole = result_line(&arguments, 2, 0, &Some(summary()), true);
    let other = |from: &str, to: &str| {
        check_result(&whole.replace(from, to), &registration()).unwrap_err()
    };
    assert_eq!(other("planned_blocks=2", "planned_blocks=3"), fit("planned_blocks"));
    assert_eq!(other("invalid_blocks=0", "invalid_blocks=1"), fit("invalid_blocks"));
    assert_eq!(other("experiment=AB", "experiment=AA"), fit("experiment"));
    assert_eq!(other("exploratory_per_candidate", "calibration"), fit("scope"));
    assert_eq!(
        check_result("PLAN\n", &registration()).unwrap_err(),
        "optikit-paired produced no RESULT line"
    );
}

#[test]
fn what_is_found_is_what_the_pattern_says() {
    // Every span that is found spells a word of the pattern's language, and the first match
    // starts where a word can.
    for matcher in [Impl::Naive, Impl::Thompson, Impl::Prefilter, Impl::LazyDfa] {
        let corpus = pairs(&[("x?(ab|a)+c", "zxabaac"), ("a*", "ba")]);
        let compiled = compile_all(&corpus).unwrap();
        let mut out = Vec::new();
        matcher.find_all(&compiled[0], &corpus[0].input, &mut out);
        assert_eq!(out, [Span::new(1, 7)]);
        out.clear();
        matcher.find_all(&compiled[1], &corpus[1].input, &mut out);
        assert_eq!(out, [Span::new(0, 0), Span::new(1, 2)]);
    }
}

#[test]
fn the_subject_understands_its_runner() {
    let work = ["--count", "5", "--sessions", "2"];
    let opaque = comparison(
        &[
            &["--baseline", "a", "--candidate", "b", "--subject-args"][..],
            &["--impl naive --corpus main.bin"],
            &work,
        ]
        .concat(),
    );
    let told = parse_args(&command_args(&opaque, Label::Baseline, 9)).unwrap();
    assert_eq!(told.measure.as_deref(), Some("scan"));
    assert_eq!((told.seed, told.sessions, told.count), (Some(9), Some(2), Some(5)));
    assert_eq!(told.impl_name.as_deref(), Some("naive"));
    assert_eq!(told.corpus.as_deref(), Some("main.bin"));

    let single = comparison(
        &[
            &["--baseline", "a", "--candidate", "b", "--candidate-arg", "--impl"][..],
            &["--candidate-arg", "thompson", "--candidate-arg", "--corpus"],
            &["--candidate-arg", "my corpus.bin"],
            &work,
        ]
        .concat(),
    );
    let told = parse_args(&command_args(&single, Label::Candidate, 3)).unwrap();
    assert_eq!((told.seed, told.sessions, told.count), (Some(3), Some(2), Some(5)));
    assert_eq!(told.impl_name.as_deref(), Some("thompson"));
    assert_eq!(told.corpus.as_deref(), Some("my corpus.bin"));
    assert_eq!(told.subject_args, None);
}

#[test]
fn the_subject_understands_a_gate() {
    let campaign = parse_config(&texts(&[
        "--bench", "bench", "--paired", "paired", "--baseline-impl", "naive",
        "--candidate-impl", "prefilter", "--id", "c1", "--hypothesis", "faster",
        "--corpora-dir", "corpora", "--log", "LOG.md",
    ]))
    .unwrap();
    let told = parse_args(&gate_args(&campaign, "prefilter", "main")).unwrap();
    assert_eq!(told.impl_name.as_deref(), Some("prefilter"));
    assert_eq!(told.corpus.as_deref(), Some("corpora/main.bin"));
    assert_eq!(
        gate_settings(&told).unwrap(),
        (
            "corpora/main.golden".to_owned(),
            "prefilter".to_owned(),
            "main".to_owned()
        )
    );
}
