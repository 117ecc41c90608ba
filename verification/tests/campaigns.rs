//! Campaigns: gates, decisions, and the order of a whole ladder.
use optiwork::arguments;
use optiwork::campaign::{
    decide, decision, field, gate_args, gate_label, header, judge_gate, paired_args, stopped,
    verdict_from, Compared, Gate, GateExit, Outcome,
};
use optiwork::config::{parse_args, Config};
use optiwork::design::{
    self, validate, ArtifactDesign, CampaignDesign, LimitsDesign, PhaseDesign, WorkloadDesign,
};
use optiwork::ladder::{chosen_blocks, Action, Artifact, Event, Ladder, Step};
use optiwork::record::Label;

fn texts(values: &[&str]) -> Vec<String> {
    values.iter().map(|value| (*value).to_owned()).collect()
}

#[test]
fn field_extracts_token_value() {
    let line = "RESULT experiment=AB scope=x lower_95_one_sided_ratio=1.234 evidence=screen_positive foo=bar";
    assert_eq!(
        field(line, "lower_95_one_sided_ratio"),
        Some("1.234".to_owned())
    );
    assert_eq!(field(line, "evidence"), Some("screen_positive".to_owned()));
    assert_eq!(field(line, "missing"), None);
}

#[test]
fn verdict_parses_result_line() {
    let stdout = "PLAN x\nBLOCK y\nRESULT experiment=AB lower_95_one_sided_ratio=0.5 speedup_percent=-50.0 evidence=screen_inconclusive\n";
    let v = verdict_from(stdout).unwrap();
    let lower: f64 = v.lower_95_ratio.parse().unwrap();
    assert!((lower - 0.5).abs() < 1e-9);
    assert_eq!(v.evidence, "screen_inconclusive");
    let speedup: f64 = v.speedup_percent.unwrap().parse().unwrap();
    assert!((speedup - (-50.0)).abs() < 1e-9);
}

#[test]
fn a_result_without_a_bound_is_no_verdict() {
    assert_eq!(
        verdict_from("PLAN x\n").unwrap_err(),
        "optikit-paired produced no RESULT line"
    );
    assert_eq!(
        verdict_from(" RESULT x\nRESULT evidence=e\n").unwrap_err(),
        "RESULT missing lower_95_one_sided_ratio"
    );
    let bare = verdict_from("RESULT lower_95_one_sided_ratio=2\n").unwrap();
    assert_eq!((bare.speedup_percent, bare.evidence.as_str()), (None, ""));
    assert_eq!(field("a=1 a=2", "a"), Some("1".to_owned()));
}

const FULL: [&str; 30] = [
    "--bench", "/b", "--paired", "/p", "--baseline-impl", "naive", "--candidate-impl", "thompson",
    "--id", "c1", "--hypothesis", "faster", "--corpora-dir", "corpora", "--log", "LOG.md",
    "--main-count", "8377", "--main-sessions", "30", "--main-blocks", "8", "--pathological-count",
    "150", "--pathological-sessions", "3", "--pathological-blocks", "6", "--order-seed", "77",
];

fn config(more: &[&str]) -> Config {
    parse_args(&texts(&[&FULL[..], more].concat())).unwrap()
}

#[test]
fn a_configuration_is_read_from_its_flags() {
    let full = config(&["--seed", "911", "--seed", "7", "--held-out"]);
    assert_eq!(full.bench, "/b");
    assert_eq!(full.candidate_impl, "thompson");
    assert_eq!((full.main_count, full.main_sessions, full.main_blocks), (8377, 30, 8));
    assert_eq!((full.path_count, full.path_sessions, full.path_blocks), (150, 3, 6));
    assert_eq!((full.order_seed, full.held_out), (77, true));
    assert_eq!(full.seeds, [911, 7]);
    assert_eq!(config(&[]).seeds, [42]);
    // A later flag overrides an earlier one.
    assert_eq!(config(&["--id", "c2"]).id, "c2");
}

#[test]
fn each_bad_configuration_has_its_complaint() {
    let fails = |values: &[&str]| parse_args(&texts(values)).unwrap_err();
    assert_eq!(fails(&["--help"]), "__help__");
    assert_eq!(fails(&["--nonsense"]), "unknown option `--nonsense`");
    assert_eq!(fails(&["--id"]), "missing value after `--id`");
    assert_eq!(fails(&["--main-count", "x"]), "bad --main-count");
    assert_eq!(fails(&["--pathological-blocks", "-1"]), "bad --pathological-blocks");
    assert_eq!(fails(&["--seed", ""]), "bad --seed");
    assert_eq!(fails(&[]), "missing required --bench");
    assert_eq!(fails(&FULL[..4]), "missing required --corpora-dir");
    assert_eq!(
        fails(&["--bench", "b", "--paired", "p", "--corpora-dir", "c", "--log", "l"]),
        "missing required --baseline-impl"
    );
}

const EVIDENCE: &str = "optiwork-gate-v1\tstatus=equivalent\tartifact_id=c1\tworkload_id=main\tchecked_units=43\n";

fn gate(exit: GateExit, output: &str) -> Gate {
    judge_gate(&exit, output, "c1", "main")
}

#[test]
fn a_gate_passes_only_with_evidence() {
    assert_eq!(gate(GateExit::Status(0), EVIDENCE), Gate::Equivalent);
    assert_eq!(gate(GateExit::Status(0), &format!("checking\n{EVIDENCE}")), Gate::Equivalent);
    assert_eq!(gate(GateExit::Status(1), EVIDENCE), Gate::Mismatch);
    let no_evidence =
        Gate::Broken("gate exited with status 0 but gave invalid success evidence".to_owned());
    for output in [
        "".to_owned(),
        "PASS\n".to_owned(),
        format!("{EVIDENCE}{EVIDENCE}"),
        EVIDENCE.replace("c1", "c2"),
        EVIDENCE.replace("=main", "=other"),
        EVIDENCE.replace("equivalent", "mismatch"),
        EVIDENCE.replace("=43", "=0"),
        EVIDENCE.replace("=43", "=all"),
        EVIDENCE.replace("\tchecked_units=43", ""),
        EVIDENCE.replace("\tstatus", "\tstatus=equivalent\tstatus"),
        EVIDENCE.replace("-v1", "-v2"),
    ] {
        assert_eq!(gate(GateExit::Status(0), &output), no_evidence, "output={output:?}");
    }
    assert_eq!(
        gate(GateExit::Status(2), EVIDENCE),
        Gate::Broken("gate failed with an operational status".to_owned())
    );
    assert_eq!(
        gate(GateExit::Stopped("timeout".to_owned()), EVIDENCE),
        Gate::Broken("gate did not finish: timeout".to_owned())
    );
    assert_eq!(gate_label(&Gate::Equivalent), "PASS");
    assert_eq!(gate_label(&Gate::Mismatch), "FAIL");
    assert_eq!(gate_label(&Gate::Broken(String::new())), "ERROR");
}

#[test]
fn a_candidate_is_promoted_only_if_everything_clears() {
    let broken = || Gate::Broken("x".to_owned());
    let pass = || vec![Gate::Equivalent, Gate::Equivalent];
    assert_eq!(decide(&pass(), &vec![Some(true), Some(true)]), Outcome::Promoted);
    assert_eq!(decide(&pass(), &vec![Some(true), Some(false)]), Outcome::NotPromoted);
    assert_eq!(decide(&pass(), &vec![Some(false), None]), Outcome::OperationalFailure);
    assert_eq!(decide(&vec![Gate::Mismatch, Gate::Equivalent], &vec![]), Outcome::GateFailed);
    assert_eq!(decide(&vec![Gate::Mismatch, broken()], &vec![]), Outcome::OperationalFailure);
    assert_eq!(decide(&vec![broken()], &vec![Some(true)]), Outcome::OperationalFailure);
}

#[test]
fn commands_are_understood_by_what_they_start() {
    let config = config(&["--seed", "911", "--held-out"]);
    assert_eq!(
        gate_args(&config, "thompson", "main"),
        [
            "--impl", "thompson", "--corpus", "corpora/main.bin", "--check", "corpora/main.golden",
            "--optiwork-gate-artifact-id", "thompson", "--optiwork-gate-workload-id", "main"
        ]
    );
    let args = paired_args(&config, "main", 8377, 30, 8);
    let percentages = vec![false; args.len()];
    let design = arguments::parse_args(&args, &percentages).unwrap().unwrap();
    assert_eq!((design.baseline.as_str(), design.candidate.as_str()), ("/b", "/b"));
    assert_eq!(*design.argv_for(Label::Baseline), ["--impl", "naive", "--corpus", "corpora/main.bin"]);
    assert_eq!(
        *design.argv_for(Label::Candidate),
        ["--impl", "thompson", "--corpus", "corpora/main.bin"]
    );
    assert_eq!((design.count, design.sessions, design.schedule.len()), (8377, 30, 8));
    assert_eq!((design.order_seed, design.held_out, design.direct), (Some(77), true, true));
    assert_eq!(design.seeds, [911]);
}

#[test]
fn a_campaign_is_logged() {
    let config = config(&[]);
    assert_eq!(
        header(&config, "5122cc9", "4"),
        "\n## candidate: c1 (thompson)\nscope: exploratory_per_candidate\nbaseline_impl: naive\nhypothesis: faster\ncommit: 5122cc9  vcpus: 4\nPLAN: measure=scan main(count=8377 sessions=30 blocks=8) pathological(count=150 sessions=3 blocks=6) order_seed=77 seeds=[42]\n"
    );
    assert_eq!(
        stopped(&Gate::Equivalent, &Gate::Mismatch),
        "gate: main=PASS pathological=FAIL\nDecision: rejected (equivalence gate)\n"
    );
    assert_eq!(
        stopped(&Gate::Broken("x".to_owned()), &Gate::Mismatch),
        "gate: main=ERROR pathological=FAIL\nDecision: none (operational failure of the equivalence gate)\n"
    );
    let compared = |lower: &str, faster: bool| -> Result<Compared, String> {
        Ok(Compared {
            lower_95_ratio: lower.to_owned(),
            speedup_percent: "5.000".to_owned(),
            evidence: "e".to_owned(),
            faster,
        })
    };
    assert_eq!(
        decision(&compared("0.564236", false), &compared("2.0", true)),
        "main: lower_95_ratio=0.564236 speedup_percent=5.000 evidence=e\npathological: lower_95_ratio=2.0 speedup_percent=5.000 evidence=e\nDecision: rejected (main_95>1=false pathological_95>1=true)\n"
    );
    assert!(decision(&compared("2", true), &compared("2", true))
        .ends_with("Decision: promoted (main_95>1=true pathological_95>1=true)\n"));
    assert_eq!(
        decision(&compared("2", true), &Err("no \"luck\"".to_owned())),
        "Decision: none (paired run failed: main_err=None path_err=Some(\"no \\\"luck\\\"\"))\n"
    );
}

// ---------------------------------------------------------------------------
// Whole campaigns.
// ---------------------------------------------------------------------------

fn artifact(id: &str) -> ArtifactDesign {
    ArtifactDesign {
        id: id.to_owned(),
        binary: "/bench".to_owned(),
        args: texts(&["--artifact", id]),
    }
}

fn campaign(candidates: &[&str]) -> CampaignDesign {
    CampaignDesign {
        version: "optiwork-campaign-v1".to_owned(),
        id: "campaign-x".to_owned(),
        measure: "scan".to_owned(),
        environment: vec![("KEY".to_owned(), "a=b".to_owned())],
        limits: LimitsDesign {
            gate_timeout_ms: 5000,
            subject_timeout_ms: 1,
            paired_timeout_ms: 5000,
            max_output_bytes: 4096,
        },
        max_candidates: candidates.len(),
        baseline: artifact("base"),
        candidates: candidates.iter().map(|id| artifact(id)).collect(),
        workloads: vec![WorkloadDesign {
            id: "main".to_owned(),
            args: texts(&["--workload", "main"]),
            gate_args: texts(&["--gate"]),
            count: 10,
            sessions: 2,
            calibration_blocks: 2,
            min_blocks: 2,
            max_blocks: 4,
        }],
        calibration: PhaseDesign { order_seed: 731, seeds: vec![1] },
        exploration: PhaseDesign { order_seed: 11, seeds: vec![42] },
        confirmation: PhaseDesign { order_seed: 77, seeds: vec![911] },
        target_is_positive: true,
        bias_limit_is_positive: true,
        threshold_is_sound: true,
    }
}

#[test]
fn overlapping_confirmation_design_is_rejected_before_measurement() {
    assert_eq!(validate(&campaign(&["c1"])), Ok(()));
    let mut seeds = campaign(&["c1"]);
    seeds.confirmation.seeds = vec![42];
    assert_eq!(
        validate(&seeds).unwrap_err(),
        "exploration and confirmation must not share seeds"
    );
    let mut order = campaign(&["c1"]);
    order.confirmation.order_seed = 11;
    assert_eq!(validate(&order).unwrap_err(), "phases must not share order seeds");
}

#[test]
fn subunit_decision_threshold_is_rejected_before_measurement() {
    let mut design = campaign(&["c1"]);
    let threshold = 0.99;
    design.threshold_is_sound = threshold >= 1.0;
    assert_eq!(validate(&design).unwrap_err(), "decision threshold must be at least 1.0");
}

#[test]
fn each_bad_design_has_its_complaint() {
    let fails = |change: fn(&mut CampaignDesign)| {
        let mut design = campaign(&["c1", "c2"]);
        change(&mut design);
        validate(&design).unwrap_err()
    };
    assert_eq!(fails(|d| d.version.push('0')), "unknown campaign version");
    for bad in ["", ".hidden", "a/b", "a b", "é"] {
        let mut design = campaign(&["c1"]);
        design.workloads[0].id = bad.to_owned();
        assert_eq!(validate(&design).unwrap_err(), "ids must not be empty or unsafe");
    }
    let unique = "artifact and workload ids must be unique";
    assert_eq!(fails(|d| d.candidates[1].id = "base".to_owned()), unique);
    assert_eq!(fails(|d| d.candidates[1].id = "c1".to_owned()), unique);
    let some = "at least one candidate and one workload are required";
    assert_eq!(fails(|d| d.candidates.clear()), some);
    assert_eq!(fails(|d| d.workloads.clear()), some);
    assert_eq!(fails(|d| d.max_candidates = 1), "too many candidates");
    let limits = "process limits must be greater than zero and within the output cap";
    assert_eq!(fails(|d| d.limits.gate_timeout_ms = 0), limits);
    assert_eq!(fails(|d| d.limits.max_output_bytes = 67_108_865), limits);
    let work = "counts, sessions and block limits must be greater than zero";
    assert_eq!(fails(|d| d.workloads[0].count = 0), work);
    assert_eq!(fails(|d| d.workloads[0].calibration_blocks = 0), work);
    assert_eq!(
        fails(|d| d.workloads[0].min_blocks = 5),
        "min_blocks must not exceed max_blocks"
    );
    assert_eq!(
        fails(|d| d.workloads[0].count = u64::MAX),
        "count times sessions overflowed"
    );
    let short = "paired timeout must exceed the worst-case schedule";
    assert_eq!(fails(|d| d.limits.paired_timeout_ms = 16), short);
    assert_eq!(fails(|d| d.limits.subject_timeout_ms = u64::MAX), short);
    assert_eq!(fails(|d| d.exploration.seeds.clear()), "seed lists must not be empty");
    let positive = "target effect and bias limit must be positive";
    assert_eq!(fails(|d| d.target_is_positive = false), positive);
    assert_eq!(fails(|d| d.bias_limit_is_positive = false), positive);
    let environment = "environment keys and values must be valid";
    assert_eq!(fails(|d| d.environment[0].0.clear()), environment);
    assert_eq!(fails(|d| d.environment[0].0.push('=')), environment);
    assert_eq!(fails(|d| d.environment[0].1.push('\0')), environment);
}

#[test]
fn campaign_commands_share_what_is_checked_and_timed() {
    let design = campaign(&["c1"]);
    let base = design.artifact(Artifact::Original);
    let c1 = design.artifact(Artifact::Candidate(0));
    let workload = &design.workloads[0];
    assert_eq!(
        design::gate_args(c1, workload),
        [
            "--artifact", "c1", "--workload", "main", "--gate", "--optiwork-gate-artifact-id",
            "c1", "--optiwork-gate-workload-id", "main"
        ]
    );
    let parsed = |args: Vec<String>| {
        let percentages = args.iter().map(|a| a.parse::<f64>().is_ok_and(|n| n > 0.0)).collect();
        arguments::parse_args(&args, &percentages).unwrap().unwrap()
    };
    let aa = parsed(design::calibration_args(&design, workload, "3.0"));
    assert!(aa.calibration && aa.direct);
    assert_eq!(*aa.argv_for(Label::Candidate), ["--artifact", "base", "--workload", "main"]);
    assert_eq!(aa.target_speedup, Some("3.0".to_owned()));
    assert_eq!((aa.schedule.len(), aa.order_seed), (2, Some(731)));
    assert_eq!((aa.timeout_ms, aa.max_output_bytes), (1, 4096));
    let ab = parsed(design::comparison_args(&design, base, c1, workload, 3, false));
    assert_eq!(*ab.argv_for(Label::Baseline), ["--artifact", "base", "--workload", "main"]);
    assert_eq!(*ab.argv_for(Label::Candidate), ["--artifact", "c1", "--workload", "main"]);
    assert_eq!((ab.seeds.as_slice(), ab.order_seed, ab.held_out), (&[42][..], Some(11), false));
    let confirmed = parsed(design::comparison_args(&design, base, c1, workload, 3, true));
    assert_eq!((confirmed.order_seed, confirmed.held_out), (Some(77), true));
    assert_eq!(confirmed.seeds, [911]);
}

fn ladder(candidates: usize, workloads: usize) -> Ladder {
    Ladder::new(candidates, vec![2; workloads], vec![4; workloads])
}

/// Gate and calibrate the original on each workload.
fn calibrated(candidates: usize, workloads: usize) -> Ladder {
    let mut ladder = ladder(candidates, workloads);
    for w in 0..workloads {
        assert_eq!(ladder.next_action(), Action::Gate(Artifact::Original, w));
        ladder.advance(Event::Gated(true));
    }
    for w in 0..workloads {
        assert_eq!(ladder.next_action(), Action::Calibrate(w));
        ladder.advance(Event::Calibrated(3));
    }
    ladder
}

#[test]
fn a_promoted_candidate_is_the_next_baseline_and_is_confirmed_against_the_original() {
    let mut ladder = calibrated(2, 1);
    assert_eq!(ladder.next_action(), Action::Gate(Artifact::Candidate(0), 0));
    ladder.advance(Event::Gated(true));
    assert_eq!(ladder.next_action(), Action::Compare(Artifact::Original, 0, 0, 3));
    ladder.advance(Event::Compared(true));
    assert_eq!(ladder.outcome(0), Some(Outcome::Promoted));
    ladder.advance(Event::Gated(true));
    assert_eq!(ladder.next_action(), Action::Compare(Artifact::Candidate(0), 1, 0, 3));
    ladder.advance(Event::Compared(false));
    assert_eq!(ladder.outcome(1), Some(Outcome::NotPromoted));
    assert_eq!(ladder.next_action(), Action::Confirm(0, 0, 3));
    assert_eq!(ladder.accepted_baseline(), Artifact::Original);
    ladder.advance(Event::Compared(true));
    assert_eq!(ladder.step(), Step::Complete(Some(true)));
    assert_eq!(ladder.current_baseline(), Artifact::Candidate(0));
    assert_eq!(ladder.accepted_baseline(), Artifact::Candidate(0));
    assert_eq!(ladder.next_action(), Action::Stop);
}

#[test]
fn a_candidate_that_fails_its_gate_is_not_timed_and_the_next_one_proceeds() {
    let mut ladder = calibrated(2, 2);
    ladder.advance(Event::Gated(true));
    assert_eq!(ladder.next_action(), Action::Gate(Artifact::Candidate(0), 1));
    ladder.advance(Event::Gated(false));
    assert_eq!(ladder.outcome(0), Some(Outcome::GateFailed));
    assert_eq!(ladder.next_action(), Action::Gate(Artifact::Candidate(1), 0));
    ladder.advance(Event::Gated(true));
    ladder.advance(Event::Gated(true));
    assert_eq!(ladder.next_action(), Action::Compare(Artifact::Original, 1, 0, 3));
    ladder.advance(Event::Compared(false));
    // The other workloads are compared all the same, and cannot make up for it.
    assert_eq!(ladder.next_action(), Action::Compare(Artifact::Original, 1, 1, 3));
    ladder.advance(Event::Compared(true));
    assert_eq!(ladder.outcome(1), Some(Outcome::NotPromoted));
    assert_eq!(ladder.step(), Step::Complete(None));
    assert_eq!(ladder.accepted_baseline(), Artifact::Original);
}

#[test]
fn an_unconfirmed_winner_leaves_the_original_accepted() {
    let mut ladder = calibrated(1, 1);
    ladder.advance(Event::Gated(true));
    ladder.advance(Event::Compared(true));
    ladder.advance(Event::Compared(false));
    assert_eq!(ladder.step(), Step::Complete(Some(false)));
    assert_eq!(ladder.current_baseline(), Artifact::Candidate(0));
    assert_eq!(ladder.accepted_baseline(), Artifact::Original);
}

#[test]
fn a_breakdown_ends_a_campaign_and_decides_nothing() {
    let mut ladder = calibrated(2, 1);
    ladder.advance(Event::Gated(true));
    ladder.advance(Event::Broken);
    assert_eq!(ladder.step(), Step::Failed);
    assert_eq!(ladder.outcome(0), None);
    assert_eq!(ladder.next_action(), Action::Stop);
    assert_eq!(ladder.accepted_baseline(), Artifact::Original);
    // The original must pass its own gate.
    let mut malformed = Ladder::new(1, vec![2], vec![4]);
    malformed.advance(Event::Gated(false));
    assert_eq!(malformed.step(), Step::Failed);
}

#[test]
fn blocks_are_chosen_within_their_limits() {
    assert_eq!(chosen_blocks(1, 2, 4), 2);
    assert_eq!(chosen_blocks(3, 2, 4), 3);
    assert_eq!(chosen_blocks(9, 2, 4), 4);
    let mut ladder = Ladder::new(1, vec![2], vec![4]);
    assert_eq!(ladder.is_underpowered(0), None);
    ladder.advance(Event::Gated(true));
    ladder.advance(Event::Calibrated(5));
    assert_eq!(ladder.is_underpowered(0), Some(true));
    ladder.advance(Event::Gated(true));
    assert_eq!(ladder.next_action(), Action::Compare(Artifact::Original, 0, 0, 4));
}
