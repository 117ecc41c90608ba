//! The design of a whole campaign, and what is rejected before anything is measured.
use crate::arguments::OUTPUT_BYTES_CAP;
use crate::ladder::Artifact;
use crate::text::{
    all_decimal, chars_of, decimal, lemma_views_push, number_text, number_texts, same_text, views,
};
use vstd::prelude::*;

verus! {

/// The version of a campaign design.
pub const CAMPAIGN_VERSION: &'static str = "optiwork-campaign-v1";

/// An artifact: a program and the arguments that select it.
pub struct ArtifactDesign {
    pub id: String,
    pub binary: String,
    pub args: Vec<String>,
}

/// A workload: what is checked and timed, how much of it, and within which limits.
pub struct WorkloadDesign {
    pub id: String,
    pub args: Vec<String>,
    pub gate_args: Vec<String>,
    pub count: u64,
    pub sessions: u64,
    pub calibration_blocks: usize,
    pub min_blocks: usize,
    pub max_blocks: usize,
}

/// The seeds of a phase.
pub struct PhaseDesign {
    pub order_seed: u64,
    pub seeds: Vec<u64>,
}

/// The limits of the processes.
pub struct LimitsDesign {
    pub gate_timeout_ms: u64,
    pub subject_timeout_ms: u64,
    pub paired_timeout_ms: u64,
    pub max_output_bytes: u64,
}

/// A campaign. The last three fields say whether the target speedup and the bias limit are
/// finite numbers above zero, and whether the decision threshold is at least one.
pub struct CampaignDesign {
    pub version: String,
    pub id: String,
    pub measure: String,
    pub environment: Vec<(String, String)>,
    pub limits: LimitsDesign,
    pub max_candidates: usize,
    pub baseline: ArtifactDesign,
    pub candidates: Vec<ArtifactDesign>,
    pub workloads: Vec<WorkloadDesign>,
    pub calibration: PhaseDesign,
    pub exploration: PhaseDesign,
    pub confirmation: PhaseDesign,
    pub target_is_positive: bool,
    pub bias_limit_is_positive: bool,
    pub threshold_is_sound: bool,
}

// ---------------------------------------------------------------------------
// Names.
// ---------------------------------------------------------------------------

/// Whether `c` may stand in a name: it is a letter, a digit, or one of `-`, `_` and `.`.
pub open spec fn is_name_char(c: char) -> bool {
    ||| 'a' <= c <= 'z'
    ||| 'A' <= c <= 'Z'
    ||| '0' <= c <= '9'
    ||| c == '-'
    ||| c == '_'
    ||| c == '.'
}

/// Whether a name can be part of a file name.
pub open spec fn is_safe_name(name: Seq<char>) -> bool {
    &&& name.len() > 0
    &&& name[0] != '.'
    &&& forall|i: int| 0 <= i < name.len() ==> is_name_char(#[trigger] name[i])
}

fn safe_name(name: &str) -> (yes: bool)
    ensures
        yes == is_safe_name(name@),
{
    let chars = chars_of(name);
    if chars.len() == 0 || chars[0] == '.' {
        return false;
    }
    let mut i: usize = 0;
    while i < chars.len()
        invariant
            i <= chars.len(),
            chars@ == name@,
            forall|j: int| 0 <= j < i ==> is_name_char(#[trigger] chars@[j]),
        decreases chars.len() - i,
    {
        let c: char = chars[i];
        let fits: bool = ('a' <= c && c <= 'z') || ('A' <= c && c <= 'Z') || ('0' <= c && c <= '9')
            || c == '-' || c == '_' || c == '.';
        if !fits {
            assert(!is_name_char(chars@[i as int]));
            return false;
        }
        i += 1;
    }
    true
}

/// The names of the artifacts, the baseline first.
pub open spec fn artifact_names(design: CampaignDesign) -> Seq<Seq<char>> {
    seq![design.baseline.id@] + design.candidates@.map_values(|c: ArtifactDesign| c.id@)
}

/// The names of the workloads.
pub open spec fn workload_names(design: CampaignDesign) -> Seq<Seq<char>> {
    design.workloads@.map_values(|w: WorkloadDesign| w.id@)
}

/// Whether all names are safe.
pub open spec fn all_safe(names: Seq<Seq<char>>) -> bool {
    forall|i: int| 0 <= i < names.len() ==> is_safe_name(#[trigger] names[i])
}

fn names_of_artifacts(design: &CampaignDesign) -> (names: Vec<String>)
    ensures
        views(names@) == artifact_names(*design),
{
    let mut names: Vec<String> = Vec::new();
    names.push(design.baseline.id.as_str().to_owned());
    let ghost whole = artifact_names(*design);
    assert(views(names@) =~= whole.take(1));
    let mut i: usize = 0;
    while i < design.candidates.len()
        invariant
            i <= design.candidates.len(),
            whole == artifact_names(*design),
            views(names@) == whole.take(i + 1),
        decreases design.candidates.len() - i,
    {
        let name = design.candidates[i].id.as_str().to_owned();
        proof {
            lemma_views_push(names@, name);
            assert(whole[i + 1] == name@);
            assert(whole.take(i + 2) =~= whole.take(i + 1).push(name@));
        }
        names.push(name);
        i += 1;
    }
    assert(whole.take(whole.len() as int) =~= whole);
    names
}

fn names_of_workloads(design: &CampaignDesign) -> (names: Vec<String>)
    ensures
        views(names@) == workload_names(*design),
{
    let mut names: Vec<String> = Vec::new();
    let ghost whole = workload_names(*design);
    assert(views(names@) =~= whole.take(0));
    let mut i: usize = 0;
    while i < design.workloads.len()
        invariant
            i <= design.workloads.len(),
            whole == workload_names(*design),
            views(names@) == whole.take(i as int),
        decreases design.workloads.len() - i,
    {
        let name = design.workloads[i].id.as_str().to_owned();
        proof {
            lemma_views_push(names@, name);
            assert(whole.take(i + 1) =~= whole.take(i as int).push(name@));
        }
        names.push(name);
        i += 1;
    }
    assert(whole.take(whole.len() as int) =~= whole);
    names
}

fn are_safe(names: &Vec<String>) -> (yes: bool)
    ensures
        yes == all_safe(views(names@)),
{
    let mut i: usize = 0;
    while i < names.len()
        invariant
            i <= names.len(),
            forall|j: int| 0 <= j < i ==> is_safe_name(#[trigger] views(names@)[j]),
        decreases names.len() - i,
    {
        assert(views(names@)[i as int] == names@[i as int]@);
        if !safe_name(names[i].as_str()) {
            return false;
        }
        i += 1;
    }
    true
}

/// Whether no name occurs twice.
pub open spec fn all_different(names: Seq<Seq<char>>) -> bool {
    forall|i: int, j: int| 0 <= i < j < names.len() ==> #[trigger] names[i] != #[trigger] names[j]
}

fn are_different(names: &Vec<String>) -> (yes: bool)
    ensures
        yes == all_different(views(names@)),
{
    let ghost whole = views(names@);
    let mut j: usize = 0;
    while j < names.len()
        invariant
            j <= names.len(),
            whole == views(names@),
            forall|a: int, b: int|
                0 <= a < b < j ==> #[trigger] whole[a] != #[trigger] whole[b],
        decreases names.len() - j,
    {
        let mut i: usize = 0;
        while i < j
            invariant
                i <= j < names.len(),
                whole == views(names@),
                forall|a: int| 0 <= a < i ==> #[trigger] whole[a] != whole[j as int],
            decreases j - i,
        {
            assert(whole[i as int] == names@[i as int]@ && whole[j as int] == names@[j as int]@);
            if same_text(names[i].as_str(), names[j].as_str()) {
                return false;
            }
            i += 1;
        }
        j += 1;
    }
    true
}

// ---------------------------------------------------------------------------
// Work, seeds, limits and environment.
// ---------------------------------------------------------------------------

/// Whether a workload has work and blocks.
pub open spec fn has_work(workload: WorkloadDesign) -> bool {
    &&& workload.count > 0
    &&& workload.sessions > 0
    &&& workload.calibration_blocks > 0
    &&& workload.min_blocks > 0
    &&& workload.max_blocks > 0
}

/// How long the longest comparison on a workload can take, at four processes a block.
pub open spec fn longest_run(workload: WorkloadDesign, limits: LimitsDesign) -> int {
    let blocks = if workload.calibration_blocks > workload.max_blocks {
        workload.calibration_blocks
    } else {
        workload.max_blocks
    };
    4 * blocks * limits.subject_timeout_ms
}

/// What is wrong with a workload, if anything is.
pub open spec fn workload_complaint(workload: WorkloadDesign, limits: LimitsDesign) -> Option<
    Seq<char>,
> {
    if !has_work(workload) {
        Some("counts, sessions and block limits must be greater than zero"@)
    } else if workload.min_blocks > workload.max_blocks {
        Some("min_blocks must not exceed max_blocks"@)
    } else if workload.count * workload.sessions > u64::MAX {
        Some("count times sessions overflowed"@)
    } else if longest_run(workload, limits) >= limits.paired_timeout_ms {
        Some("paired timeout must exceed the worst-case schedule"@)
    } else {
        None
    }
}

/// What is wrong with the first workload of which something is wrong.
pub open spec fn workloads_complaint(workloads: Seq<WorkloadDesign>, limits: LimitsDesign) -> Option<
    Seq<char>,
>
    decreases workloads.len(),
{
    if workloads.len() == 0 {
        None
    } else {
        match workloads_complaint(workloads.drop_last(), limits) {
            Some(complaint) => Some(complaint),
            None => workload_complaint(workloads.last(), limits),
        }
    }
}

fn judge_workload(workload: &WorkloadDesign, limits: &LimitsDesign) -> (complaint: Option<String>)
    ensures
        match complaint {
            Some(c) => workload_complaint(*workload, *limits) == Some(c@),
            None => workload_complaint(*workload, *limits) is None,
        },
{
    if workload.count == 0 || workload.sessions == 0 || workload.calibration_blocks == 0
        || workload.min_blocks == 0 || workload.max_blocks == 0 {
        return Some("counts, sessions and block limits must be greater than zero".to_owned());
    }
    if workload.min_blocks > workload.max_blocks {
        return Some("min_blocks must not exceed max_blocks".to_owned());
    }
    if workload.count.checked_mul(workload.sessions).is_none() {
        return Some("count times sessions overflowed".to_owned());
    }
    let blocks: usize = if workload.calibration_blocks > workload.max_blocks {
        workload.calibration_blocks
    } else {
        workload.max_blocks
    };
    let observations: u128 = 4 * (blocks as u128);
    let fits: bool = match observations.checked_mul(limits.subject_timeout_ms as u128) {
        Some(longest) => longest < limits.paired_timeout_ms as u128,
        None => false,
    };
    if !fits {
        return Some("paired timeout must exceed the worst-case schedule".to_owned());
    }
    None
}

proof fn lemma_first_complaint(workloads: Seq<WorkloadDesign>, limits: LimitsDesign, n: int)
    requires
        0 <= n <= workloads.len(),
        workloads_complaint(workloads.take(n), limits) is Some,
    ensures
        workloads_complaint(workloads, limits) == workloads_complaint(workloads.take(n), limits),
    decreases workloads.len() - n,
{
    if n < workloads.len() {
        assert(workloads.take(n + 1).drop_last() =~= workloads.take(n));
        lemma_first_complaint(workloads, limits, n + 1);
    } else {
        assert(workloads.take(n) =~= workloads);
    }
}

fn judge_workloads(workloads: &Vec<WorkloadDesign>, limits: &LimitsDesign) -> (complaint: Option<
    String,
>)
    ensures
        match complaint {
            Some(c) => workloads_complaint(workloads@, *limits) == Some(c@),
            None => workloads_complaint(workloads@, *limits) is None,
        },
{
    let mut i: usize = 0;
    while i < workloads.len()
        invariant
            i <= workloads.len(),
            workloads_complaint(workloads@.take(i as int), *limits) is None,
        decreases workloads.len() - i,
    {
        assert(workloads@.take(i + 1).drop_last() =~= workloads@.take(i as int));
        match judge_workload(&workloads[i], limits) {
            Some(complaint) => {
                proof {
                    lemma_first_complaint(workloads@, *limits, i + 1);
                }
                return Some(complaint);
            },
            None => {},
        }
        i += 1;
    }
    assert(workloads@.take(workloads.len() as int) =~= workloads@);
    None
}

/// Whether two phases share a seed.
pub open spec fn share_a_seed(a: Seq<u64>, b: Seq<u64>) -> bool {
    exists|i: int, j: int|
        0 <= i < a.len() && 0 <= j < b.len() && #[trigger] a[i] == #[trigger] b[j]
}

fn overlap(a: &Vec<u64>, b: &Vec<u64>) -> (yes: bool)
    ensures
        yes == share_a_seed(a@, b@),
{
    let mut i: usize = 0;
    while i < a.len()
        invariant
            i <= a.len(),
            forall|k: int, j: int|
                0 <= k < i && 0 <= j < b.len() ==> #[trigger] a@[k] != #[trigger] b@[j],
        decreases a.len() - i,
    {
        let mut j: usize = 0;
        while j < b.len()
            invariant
                i < a.len(),
                j <= b.len(),
                forall|k: int| 0 <= k < j ==> a@[i as int] != #[trigger] b@[k],
            decreases b.len() - j,
        {
            if a[i] == b[j] {
                assert(a@[i as int] == b@[j as int]);
                return true;
            }
            j += 1;
        }
        i += 1;
    }
    false
}

/// Whether a text can stand in an environment.
pub open spec fn is_plain(text: Seq<char>, key: bool) -> bool {
    &&& key ==> text.len() > 0
    &&& forall|i: int|
        0 <= i < text.len() ==> #[trigger] text[i] != '\0' && !(key && text[i] == '=')
}

fn plain(text: &str, key: bool) -> (yes: bool)
    ensures
        yes == is_plain(text@, key),
{
    let chars = chars_of(text);
    if key && chars.len() == 0 {
        return false;
    }
    let mut i: usize = 0;
    while i < chars.len()
        invariant
            i <= chars.len(),
            chars@ == text@,
            forall|j: int|
                0 <= j < i ==> #[trigger] chars@[j] != '\0' && !(key && chars@[j] == '='),
        decreases chars.len() - i,
    {
        if chars[i] == '\0' || (key && chars[i] == '=') {
            return false;
        }
        i += 1;
    }
    true
}

/// Whether every key and value of an environment can stand there.
pub open spec fn is_environment(environment: Seq<(String, String)>) -> bool {
    forall|i: int|
        0 <= i < environment.len() ==> is_plain((#[trigger] environment[i]).0@, true) && is_plain(
            environment[i].1@,
            false,
        )
}

fn plain_environment(environment: &Vec<(String, String)>) -> (yes: bool)
    ensures
        yes == is_environment(environment@),
{
    let mut i: usize = 0;
    while i < environment.len()
        invariant
            i <= environment.len(),
            forall|j: int|
                0 <= j < i ==> is_plain((#[trigger] environment@[j]).0@, true) && is_plain(
                    environment@[j].1@,
                    false,
                ),
        decreases environment.len() - i,
    {
        let entry = &environment[i];
        if !plain(entry.0.as_str(), true) || !plain(entry.1.as_str(), false) {
            assert(!(is_plain(environment@[i as int].0@, true) && is_plain(
                environment@[i as int].1@,
                false,
            )));
            return false;
        }
        i += 1;
    }
    true
}

/// Whether the processes are limited, and none may write more than the cap.
pub open spec fn are_limits(limits: LimitsDesign) -> bool {
    &&& limits.gate_timeout_ms > 0
    &&& limits.subject_timeout_ms > 0
    &&& limits.paired_timeout_ms > 0
    &&& 0 < limits.max_output_bytes <= OUTPUT_BYTES_CAP
}

// ---------------------------------------------------------------------------
// Validation.
// ---------------------------------------------------------------------------

/// What is wrong with a design, if anything is.
pub open spec fn complaint_about(design: CampaignDesign) -> Option<Seq<char>> {
    let artifacts = artifact_names(design);
    let workloads = workload_names(design);
    if design.version@ != CAMPAIGN_VERSION@ {
        Some("unknown campaign version"@)
    } else if !is_safe_name(design.id@) || !all_safe(artifacts) || !all_safe(workloads) {
        Some("ids must not be empty or unsafe"@)
    } else if !all_different(artifacts) || !all_different(workloads) {
        Some("artifact and workload ids must be unique"@)
    } else if design.candidates.len() == 0 || design.workloads.len() == 0 {
        Some("at least one candidate and one workload are required"@)
    } else if design.candidates.len() > design.max_candidates {
        Some("too many candidates"@)
    } else if !are_limits(design.limits) {
        Some("process limits must be greater than zero and within the output cap"@)
    } else if workloads_complaint(design.workloads@, design.limits) is Some {
        workloads_complaint(design.workloads@, design.limits)
    } else if design.calibration.seeds.len() == 0 || design.exploration.seeds.len() == 0
        || design.confirmation.seeds.len() == 0 {
        Some("seed lists must not be empty"@)
    } else if !design.target_is_positive || !design.bias_limit_is_positive {
        Some("target effect and bias limit must be positive"@)
    } else if !design.threshold_is_sound {
        Some("decision threshold must be at least 1.0"@)
    } else if !is_environment(design.environment@) {
        Some("environment keys and values must be valid"@)
    } else if share_a_seed(design.exploration.seeds@, design.confirmation.seeds@) {
        Some("exploration and confirmation must not share seeds"@)
    } else if design.calibration.order_seed == design.exploration.order_seed
        || design.calibration.order_seed == design.confirmation.order_seed
        || design.exploration.order_seed == design.confirmation.order_seed {
        Some("phases must not share order seeds"@)
    } else {
        None
    }
}

/// Reject a design before anything is measured.
pub fn validate(design: &CampaignDesign) -> (judgement: Result<(), String>)
    ensures
        match judgement {
            Ok(_) => complaint_about(*design) is None,
            Err(e) => complaint_about(*design) == Some(e@),
        },
{
    if !same_text(design.version.as_str(), CAMPAIGN_VERSION) {
        return Err("unknown campaign version".to_owned());
    }
    let artifacts = names_of_artifacts(design);
    let workloads = names_of_workloads(design);
    if !safe_name(design.id.as_str()) || !are_safe(&artifacts) || !are_safe(&workloads) {
        return Err("ids must not be empty or unsafe".to_owned());
    }
    if !are_different(&artifacts) || !are_different(&workloads) {
        return Err("artifact and workload ids must be unique".to_owned());
    }
    if design.candidates.len() == 0 || design.workloads.len() == 0 {
        return Err("at least one candidate and one workload are required".to_owned());
    }
    if design.candidates.len() > design.max_candidates {
        return Err("too many candidates".to_owned());
    }
    if design.limits.gate_timeout_ms == 0 || design.limits.subject_timeout_ms == 0
        || design.limits.paired_timeout_ms == 0 || design.limits.max_output_bytes == 0
        || design.limits.max_output_bytes > OUTPUT_BYTES_CAP {
        return Err("process limits must be greater than zero and within the output cap".to_owned());
    }
    match judge_workloads(&design.workloads, &design.limits) {
        Some(complaint) => return Err(complaint),
        None => {},
    }
    if design.calibration.seeds.len() == 0 || design.exploration.seeds.len() == 0
        || design.confirmation.seeds.len() == 0 {
        return Err("seed lists must not be empty".to_owned());
    }
    if !design.target_is_positive || !design.bias_limit_is_positive {
        return Err("target effect and bias limit must be positive".to_owned());
    }
    if !design.threshold_is_sound {
        return Err("decision threshold must be at least 1.0".to_owned());
    }
    if !plain_environment(&design.environment) {
        return Err("environment keys and values must be valid".to_owned());
    }
    if overlap(&design.exploration.seeds, &design.confirmation.seeds) {
        return Err("exploration and confirmation must not share seeds".to_owned());
    }
    if design.calibration.order_seed == design.exploration.order_seed
        || design.calibration.order_seed == design.confirmation.order_seed
        || design.exploration.order_seed == design.confirmation.order_seed {
        return Err("phases must not share order seeds".to_owned());
    }
    Ok(())
}

proof fn lemma_no_complaint(workloads: Seq<WorkloadDesign>, limits: LimitsDesign, i: int)
    requires
        workloads_complaint(workloads, limits) is None,
        0 <= i < workloads.len(),
    ensures
        workload_complaint(workloads[i], limits) is None,
    decreases workloads.len(),
{
    if i < workloads.len() - 1 {
        lemma_no_complaint(workloads.drop_last(), limits, i);
    }
}

/// In a design that is not rejected, the confirmation uses fresh seeds and every phase an
/// order of its own, names tell artifacts and workloads apart, and every workload has work
/// that fits its records and its limits.
pub proof fn accepted_designs_are_sound(design: CampaignDesign)
    requires
        complaint_about(design) is None,
    ensures
        forall|i: int, j: int|
            0 <= i < design.exploration.seeds.len() && 0 <= j < design.confirmation.seeds.len()
                ==> #[trigger] design.exploration.seeds@[i]
                != #[trigger] design.confirmation.seeds@[j],
        design.calibration.order_seed != design.exploration.order_seed,
        design.calibration.order_seed != design.confirmation.order_seed,
        design.exploration.order_seed != design.confirmation.order_seed,
        artifact_names(design).no_duplicates(),
        workload_names(design).no_duplicates(),
        0 < design.candidates.len() <= design.max_candidates,
        design.workloads.len() > 0,
        forall|i: int|
            0 <= i < design.workloads.len() ==> {
                let workload = #[trigger] design.workloads@[i];
                &&& has_work(workload)
                &&& workload.min_blocks <= workload.max_blocks
                &&& workload.count * workload.sessions <= u64::MAX
                &&& longest_run(workload, design.limits) < design.limits.paired_timeout_ms
            },
{
    assert forall|i: int| 0 <= i < design.workloads.len() implies workload_complaint(
        #[trigger] design.workloads@[i],
        design.limits,
    ) is None by {
        lemma_no_complaint(design.workloads@, design.limits, i);
    }
    let artifacts = artifact_names(design);
    let workloads = workload_names(design);
    assert forall|i: int, j: int|
        0 <= i < artifacts.len() && 0 <= j < artifacts.len() && i != j implies artifacts[i]
        != artifacts[j] by {
        if i > j {
            assert(artifacts[j] != artifacts[i]);
        }
    }
    assert forall|i: int, j: int|
        0 <= i < workloads.len() && 0 <= j < workloads.len() && i != j implies workloads[i]
        != workloads[j] by {
        if i > j {
            assert(workloads[j] != workloads[i]);
        }
    }
}

proof fn lemma_all_without_complaint(workloads: Seq<WorkloadDesign>, limits: LimitsDesign)
    ensures
        workloads_complaint(workloads, limits) is None <==> forall|i: int|
            0 <= i < workloads.len() ==> workload_complaint(#[trigger] workloads[i], limits) is None,
    decreases workloads.len(),
{
    if workloads.len() > 0 {
        let most = workloads.drop_last();
        lemma_all_without_complaint(most, limits);
        assert(workloads.last() == workloads[workloads.len() - 1]);
        if forall|i: int|
            0 <= i < workloads.len() ==> workload_complaint(#[trigger] workloads[i], limits) is None {
            assert forall|i: int| 0 <= i < most.len() implies workload_complaint(
                #[trigger] most[i],
                limits,
            ) is None by {
                assert(most[i] == workloads[i]);
            }
        }
        if workloads_complaint(workloads, limits) is None {
            assert forall|i: int| 0 <= i < workloads.len() implies workload_complaint(
                #[trigger] workloads[i],
                limits,
            ) is None by {
                if i < most.len() {
                    assert(most[i] == workloads[i]);
                }
            }
        }
    }
}

/// Whether a name is one or more ASCII letters, digits, `-`, `_` and `.`, and does not begin
/// with a dot.
pub open spec fn is_file_name(name: Seq<char>) -> bool {
    &&& name.len() > 0
    &&& name[0] != '.'
    &&& forall|i: int|
        0 <= i < name.len() ==> {
            let c = #[trigger] name[i] as int;
            ||| 48 <= c <= 57
            ||| 65 <= c <= 90
            ||| 97 <= c <= 122
            ||| c == 45
            ||| c == 46
            ||| c == 95
        }
}

/// Whether a workload can be run within the limits: it has work and blocks, its limits are in
/// order, its work fits a record, and four processes for every block of the longest comparison
/// end before the comparison is stopped.
pub open spec fn can_be_run(workload: WorkloadDesign, limits: LimitsDesign) -> bool {
    &&& workload.count >= 1 && workload.sessions >= 1 && workload.calibration_blocks >= 1
    &&& 1 <= workload.min_blocks <= workload.max_blocks
    &&& workload.count * workload.sessions < 0x1_0000_0000_0000_0000
    &&& 4 * workload.max_blocks * limits.subject_timeout_ms < limits.paired_timeout_ms
    &&& 4 * workload.calibration_blocks * limits.subject_timeout_ms < limits.paired_timeout_ms
}

/// A design is accepted if and only if it has the known version; names that can be file names,
/// and each only once; candidates, but no more than allowed, and workloads that can be run;
/// limits; seeds for every phase, with none shared by the exploration and the confirmation,
/// and a different order in every phase; sound thresholds; and an environment that can be set.
pub proof fn designs_are_accepted_exactly(design: CampaignDesign)
    ensures
        complaint_about(design) is None <==> {
            let limits = design.limits;
            let (a, b, c) = (design.calibration, design.exploration, design.confirmation);
            &&& design.version@ == "optiwork-campaign-v1"@
            &&& is_file_name(design.id@)
            &&& is_file_name(design.baseline.id@)
            &&& forall|i: int|
                0 <= i < design.candidates.len() ==> is_file_name(
                    (#[trigger] design.candidates@[i]).id@,
                ) && design.candidates@[i].id@ != design.baseline.id@
            &&& forall|i: int, j: int|
                0 <= i < j < design.candidates.len() ==> (#[trigger] design.candidates@[i]).id@ != (
                #[trigger] design.candidates@[j]).id@
            &&& forall|i: int|
                0 <= i < design.workloads.len() ==> is_file_name(
                    (#[trigger] design.workloads@[i]).id@,
                ) && can_be_run(design.workloads@[i], limits)
            &&& forall|i: int, j: int|
                0 <= i < j < design.workloads.len() ==> (#[trigger] design.workloads@[i]).id@ != (
                #[trigger] design.workloads@[j]).id@
            &&& 1 <= design.candidates.len() <= design.max_candidates
            &&& 1 <= design.workloads.len()
            &&& limits.gate_timeout_ms >= 1 && limits.subject_timeout_ms >= 1
                && limits.paired_timeout_ms >= 1
            &&& 1 <= limits.max_output_bytes <= 67108864
            &&& a.seeds.len() > 0 && b.seeds.len() > 0 && c.seeds.len() > 0
            &&& forall|seed: u64| #[trigger] b.seeds@.contains(seed) ==> !c.seeds@.contains(seed)
            &&& a.order_seed != b.order_seed && a.order_seed != c.order_seed && b.order_seed
                != c.order_seed
            &&& design.target_is_positive && design.bias_limit_is_positive
                && design.threshold_is_sound
            &&& forall|i: int|
                0 <= i < design.environment.len() ==> {
                    let (key, value) = #[trigger] design.environment@[i];
                    &&& key@.len() > 0
                    &&& !key@.contains('=') && !key@.contains('\0')
                    &&& !value@.contains('\0')
                }
        },
{
    let limits = design.limits;
    let artifacts = artifact_names(design);
    let workloads = workload_names(design);
    lemma_all_without_complaint(design.workloads@, limits);
    assert forall|name: Seq<char>| #[trigger] is_safe_name(name) <==> is_file_name(name) by {
        if is_file_name(name) {
            assert forall|i: int| 0 <= i < name.len() implies is_name_char(#[trigger] name[i]) by {}
        }
        if is_safe_name(name) {
            assert forall|i: int| 0 <= i < name.len() implies {
                let c = #[trigger] name[i] as int;
                ||| 48 <= c <= 57
                ||| 65 <= c <= 90
                ||| 97 <= c <= 122
                ||| c == 45
                ||| c == 46
                ||| c == 95
            } by {
                assert(is_name_char(name[i]));
            }
        }
    }
    assert forall|i: int| 0 <= i < design.workloads.len() implies (workload_complaint(
        #[trigger] design.workloads@[i],
        limits,
    ) is None <==> can_be_run(design.workloads@[i], limits)) by {
        lemma_can_be_run(design.workloads@[i], limits);
    }
    lemma_names_are_good(design);
    let (b, c) = (design.exploration.seeds@, design.confirmation.seeds@);
    assert(!share_a_seed(b, c) <==> forall|seed: u64| #[trigger] b.contains(seed) ==> !c.contains(
        seed,
    )) by {
        if share_a_seed(b, c) {
            let (i, j) = choose|i: int, j: int|
                0 <= i < b.len() && 0 <= j < c.len() && #[trigger] b[i] == #[trigger] c[j];
            assert(b.contains(b[i]));
            assert(c.contains(c[j]));
        } else {
            assert forall|seed: u64| #[trigger] b.contains(seed) implies !c.contains(seed) by {
                if c.contains(seed) {
                    let i = choose|i: int| 0 <= i < b.len() && b[i] == seed;
                    let j = choose|j: int| 0 <= j < c.len() && c[j] == seed;
                    assert(b[i] == c[j]);
                }
            }
        }
    }
    assert forall|i: int| 0 <= i < design.environment.len() implies ({
        let (key, value) = #[trigger] design.environment@[i];
        (is_plain(key@, true) && is_plain(value@, false)) <==> {
            &&& key@.len() > 0
            &&& !key@.contains('=') && !key@.contains('\0')
            &&& !value@.contains('\0')
        }
    }) by {
        let (key, value) = design.environment@[i];
        lemma_plain(key@, true);
        lemma_plain(value@, false);
    }
}

proof fn lemma_plain(text: Seq<char>, key: bool)
    ensures
        is_plain(text, key) <==> {
            &&& key ==> text.len() > 0 && !text.contains('=')
            &&& !text.contains('\0')
        },
{
    if is_plain(text, key) {
        assert(forall|i: int| 0 <= i < text.len() ==> #[trigger] text[i] != '\0' && !(key && text[i]
            == '='));
    } else if (key ==> text.len() > 0 && !text.contains('=')) && !text.contains('\0') {
        assert forall|i: int| 0 <= i < text.len() implies #[trigger] text[i] != '\0' && !(key
            && text[i] == '=') by {
            assert(text.contains(text[i]));
        }
    }
}

proof fn lemma_can_be_run(workload: WorkloadDesign, limits: LimitsDesign)
    ensures
        workload_complaint(workload, limits) is None <==> can_be_run(workload, limits),
{
    let (a, b, t) = (
        workload.calibration_blocks as int,
        workload.max_blocks as int,
        limits.subject_timeout_ms as int,
    );
    assert(a <= b ==> 4 * a * t <= 4 * b * t) by (nonlinear_arith)
        requires
            t >= 0,
    ;
    assert(b <= a ==> 4 * b * t <= 4 * a * t) by (nonlinear_arith)
        requires
            t >= 0,
    ;
}

proof fn lemma_names_are_good(design: CampaignDesign)
    ensures
        ({
            let artifacts = artifact_names(design);
            let workloads = workload_names(design);
            &&& all_safe(artifacts) <==> is_safe_name(design.baseline.id@) && forall|i: int|
                0 <= i < design.candidates.len() ==> is_safe_name(
                    (#[trigger] design.candidates@[i]).id@,
                )
            &&& all_safe(workloads) <==> forall|i: int|
                0 <= i < design.workloads.len() ==> is_safe_name(
                    (#[trigger] design.workloads@[i]).id@,
                )
            &&& all_different(artifacts) <==> {
                &&& forall|i: int|
                    0 <= i < design.candidates.len() ==> (#[trigger] design.candidates@[i]).id@
                        != design.baseline.id@
                &&& forall|i: int, j: int|
                    0 <= i < j < design.candidates.len() ==> (#[trigger] design.candidates@[i]).id@
                        != (#[trigger] design.candidates@[j]).id@
            }
            &&& all_different(workloads) <==> forall|i: int, j: int|
                0 <= i < j < design.workloads.len() ==> (#[trigger] design.workloads@[i]).id@ != (
                #[trigger] design.workloads@[j]).id@
        }),
{
    let artifacts = artifact_names(design);
    let workloads = workload_names(design);
    let n = design.candidates.len() as int;
    assert(artifacts.len() == n + 1);
    assert(artifacts[0] == design.baseline.id@);
    assert(forall|i: int|
        0 <= i < n ==> artifacts[i + 1] == (#[trigger] design.candidates@[i]).id@);
    assert(forall|i: int|
        0 <= i < workloads.len() ==> #[trigger] workloads[i] == design.workloads@[i].id@);
    if all_safe(artifacts) {
        assert forall|i: int| 0 <= i < n implies is_safe_name(
            (#[trigger] design.candidates@[i]).id@,
        ) by {
            assert(is_safe_name(artifacts[i + 1]));
        }
    }
    if is_safe_name(design.baseline.id@) && forall|i: int|
        0 <= i < n ==> is_safe_name((#[trigger] design.candidates@[i]).id@) {
        assert forall|k: int| 0 <= k < artifacts.len() implies is_safe_name(
            #[trigger] artifacts[k],
        ) by {
            if k > 0 {
                assert(artifacts[k] == design.candidates@[k - 1].id@);
            }
        }
    }
    if all_safe(workloads) {
        assert forall|i: int| 0 <= i < design.workloads.len() implies is_safe_name(
            (#[trigger] design.workloads@[i]).id@,
        ) by {
            assert(is_safe_name(workloads[i]));
        }
    }
    if all_different(artifacts) {
        assert forall|i: int| 0 <= i < n implies (#[trigger] design.candidates@[i]).id@
            != design.baseline.id@ by {
            assert(artifacts[0] != artifacts[i + 1]);
        }
        assert forall|i: int, j: int| 0 <= i < j < n implies (#[trigger] design.candidates@[i]).id@
            != (#[trigger] design.candidates@[j]).id@ by {
            assert(artifacts[i + 1] != artifacts[j + 1]);
        }
    }
    if (forall|i: int|
        0 <= i < n ==> (#[trigger] design.candidates@[i]).id@ != design.baseline.id@) && (forall|
        i: int,
        j: int,
    |
        0 <= i < j < n ==> (#[trigger] design.candidates@[i]).id@ != (
        #[trigger] design.candidates@[j]).id@) {
        assert forall|i: int, j: int| 0 <= i < j < artifacts.len() implies #[trigger] artifacts[i]
            != #[trigger] artifacts[j] by {
            assert(artifacts[j] == design.candidates@[j - 1].id@);
            if i > 0 {
                assert(artifacts[i] == design.candidates@[i - 1].id@);
            }
        }
    }
    if all_different(workloads) {
        assert forall|i: int, j: int| 0 <= i < j < design.workloads.len() implies (
        #[trigger] design.workloads@[i]).id@ != (#[trigger] design.workloads@[j]).id@ by {
            assert(workloads[i] != workloads[j]);
        }
    }
}

// ---------------------------------------------------------------------------
// Commands.
// ---------------------------------------------------------------------------

/// Whether the design has such an artifact.
pub open spec fn has_artifact(design: CampaignDesign, artifact: Artifact) -> bool {
    match artifact {
        Artifact::Original => true,
        Artifact::Candidate(c) => c < design.candidates.len(),
    }
}

/// The design of an artifact.
pub open spec fn artifact_of(design: CampaignDesign, artifact: Artifact) -> ArtifactDesign {
    match artifact {
        Artifact::Original => design.baseline,
        Artifact::Candidate(c) => design.candidates@[c as int],
    }
}

/// The arguments with which an artifact is checked and timed on a workload.
pub open spec fn shared_args(artifact: ArtifactDesign, workload: WorkloadDesign) -> Seq<Seq<char>> {
    views(artifact.args@) + views(workload.args@)
}

/// The arguments of a gate, of an artifact on a workload.
pub open spec fn gate_line(artifact: ArtifactDesign, workload: WorkloadDesign) -> Seq<Seq<char>> {
    shared_args(artifact, workload) + views(workload.gate_args@) + seq![
        "--optiwork-gate-artifact-id"@,
        artifact.id@,
        "--optiwork-gate-workload-id"@,
        workload.id@,
    ]
}

/// Each text as a value of `option`.
pub open spec fn as_values(option: Seq<char>, texts: Seq<Seq<char>>) -> Seq<Seq<char>>
    decreases texts.len(),
{
    if texts.len() == 0 {
        Seq::empty()
    } else {
        as_values(option, texts.drop_last()) + seq![option, texts.last()]
    }
}

/// The work, the seeds and the limits of a comparison on a workload.
pub open spec fn work_line(
    design: CampaignDesign,
    workload: WorkloadDesign,
    phase: PhaseDesign,
    blocks: usize,
) -> Seq<Seq<char>> {
    seq![
        "--direct-args"@,
        "--measure"@,
        design.measure@,
        "--count"@,
        decimal(workload.count as nat),
        "--sessions"@,
        decimal(workload.sessions as nat),
        "--blocks"@,
        decimal(blocks as nat),
        "--order-seed"@,
        decimal(phase.order_seed as nat),
        "--timeout-ms"@,
        decimal(design.limits.subject_timeout_ms as nat),
        "--max-output-bytes"@,
        decimal(design.limits.max_output_bytes as nat),
    ] + as_values("--seed"@, all_decimal(phase.seeds@))
}

/// The arguments of the calibration of a workload. `target` is the speedup that is to be
/// found, written out.
pub open spec fn calibration_command(
    design: CampaignDesign,
    workload: WorkloadDesign,
    target: Seq<char>,
) -> Seq<Seq<char>> {
    seq!["--aa"@, design.baseline.binary@] + as_values(
        "--subject-arg"@,
        shared_args(design.baseline, workload),
    ) + work_line(design, workload, design.calibration, workload.calibration_blocks) + seq![
        "--target-speedup"@,
        target,
    ]
}

/// The arguments of a comparison of two artifacts on a workload.
pub open spec fn comparison_command(
    design: CampaignDesign,
    baseline: ArtifactDesign,
    candidate: ArtifactDesign,
    workload: WorkloadDesign,
    blocks: usize,
    held_out: bool,
) -> Seq<Seq<char>> {
    let phase = if held_out {
        design.confirmation
    } else {
        design.exploration
    };
    let line = seq!["--baseline"@, baseline.binary@, "--candidate"@, candidate.binary@] + as_values(
        "--baseline-arg"@,
        shared_args(baseline, workload),
    ) + as_values("--candidate-arg"@, shared_args(candidate, workload)) + work_line(
        design,
        workload,
        phase,
        blocks,
    );
    if held_out {
        line.push("--held-out"@)
    } else {
        line
    }
}

/// What is timed is what was checked: a gate of an artifact on a workload begins with the
/// arguments with which it is timed. The arguments that only a gate has follow, and then the
/// names of the artifact and of the workload.
pub proof fn gates_check_what_is_timed(artifact: ArtifactDesign, workload: WorkloadDesign)
    ensures
        gate_line(artifact, workload).take(shared_args(artifact, workload).len() as int)
            == shared_args(artifact, workload),
        ({
            let rest = gate_line(artifact, workload).skip(
                shared_args(artifact, workload).len() as int,
            );
            let n = rest.len() - 4;
            &&& n == workload.gate_args@.len()
            &&& forall|i: int| 0 <= i < n ==> #[trigger] rest[i] == workload.gate_args@[i]@
            &&& rest[n] == "--optiwork-gate-artifact-id"@ && rest[n + 1] == artifact.id@
            &&& rest[n + 2] == "--optiwork-gate-workload-id"@ && rest[n + 3] == workload.id@
        }),
{
    assert(gate_line(artifact, workload).take(shared_args(artifact, workload).len() as int)
        =~= shared_args(artifact, workload));
}

impl CampaignDesign {
    /// The design of an artifact.
    pub fn artifact(&self, artifact: Artifact) -> (found: &ArtifactDesign)
        requires
            has_artifact(*self, artifact),
        ensures
            *found == artifact_of(*self, artifact),
    {
        match artifact {
            Artifact::Original => &self.baseline,
            Artifact::Candidate(c) => &self.candidates[c],
        }
    }
}

fn push_all(args: &mut Vec<String>, texts: &Vec<String>)
    ensures
        views(final(args)@) == views(old(args)@) + views(texts@),
{
    let ghost before = views(args@);
    let ghost more = views(texts@);
    let mut i: usize = 0;
    assert(before + more.take(0) =~= before);
    while i < texts.len()
        invariant
            i <= texts.len(),
            more == views(texts@),
            views(args@) == before + more.take(i as int),
        decreases texts.len() - i,
    {
        let text = texts[i].as_str().to_owned();
        proof {
            lemma_views_push(args@, text);
            assert(before + more.take(i + 1) =~= (before + more.take(i as int)).push(text@));
        }
        args.push(text);
        i += 1;
    }
    assert(more.take(more.len() as int) =~= more);
}

fn push_values(args: &mut Vec<String>, option: &str, texts: &Vec<String>)
    ensures
        views(final(args)@) == views(old(args)@) + as_values(option@, views(texts@)),
{
    let ghost before = views(args@);
    let ghost more = views(texts@);
    let mut i: usize = 0;
    assert(before + as_values(option@, more.take(0)) =~= before);
    while i < texts.len()
        invariant
            i <= texts.len(),
            more == views(texts@),
            views(args@) == before + as_values(option@, more.take(i as int)),
        decreases texts.len() - i,
    {
        let ghost was = views(args@);
        let text = texts[i].as_str().to_owned();
        args.push(option.to_owned());
        args.push(text);
        proof {
            let one = seq![option@, text@];
            assert(more.take(i + 1).drop_last() =~= more.take(i as int));
            assert(views(args@) =~= was + one);
            assert(was + one =~= before + (as_values(option@, more.take(i as int)) + one));
        }
        i += 1;
    }
    assert(more.take(more.len() as int) =~= more);
}

fn shared(artifact: &ArtifactDesign, workload: &WorkloadDesign) -> (args: Vec<String>)
    ensures
        views(args@) == shared_args(*artifact, *workload),
{
    let mut args: Vec<String> = Vec::new();
    assert(views(args@) =~= Seq::empty());
    push_all(&mut args, &artifact.args);
    push_all(&mut args, &workload.args);
    assert(views(args@) =~= shared_args(*artifact, *workload));
    args
}

/// Write the arguments of a gate.
pub fn gate_args(artifact: &ArtifactDesign, workload: &WorkloadDesign) -> (args: Vec<String>)
    ensures
        views(args@) == gate_line(*artifact, *workload),
{
    let mut args = shared(artifact, workload);
    push_all(&mut args, &workload.gate_args);
    let ghost was = views(args@);
    args.push("--optiwork-gate-artifact-id".to_owned());
    args.push(artifact.id.as_str().to_owned());
    args.push("--optiwork-gate-workload-id".to_owned());
    args.push(workload.id.as_str().to_owned());
    assert(views(args@) =~= was + seq![
        "--optiwork-gate-artifact-id"@,
        artifact.id@,
        "--optiwork-gate-workload-id"@,
        workload.id@,
    ]);
    args
}

fn push_work(
    args: &mut Vec<String>,
    design: &CampaignDesign,
    workload: &WorkloadDesign,
    phase: &PhaseDesign,
    blocks: usize,
)
    ensures
        views(final(args)@) == views(old(args)@) + work_line(*design, *workload, *phase, blocks),
{
    let ghost before = views(args@);
    args.push("--direct-args".to_owned());
    args.push("--measure".to_owned());
    args.push(design.measure.as_str().to_owned());
    args.push("--count".to_owned());
    args.push(number_text(workload.count as u128));
    args.push("--sessions".to_owned());
    args.push(number_text(workload.sessions as u128));
    args.push("--blocks".to_owned());
    args.push(number_text(blocks as u128));
    args.push("--order-seed".to_owned());
    args.push(number_text(phase.order_seed as u128));
    args.push("--timeout-ms".to_owned());
    args.push(number_text(design.limits.subject_timeout_ms as u128));
    args.push("--max-output-bytes".to_owned());
    args.push(number_text(design.limits.max_output_bytes as u128));
    let ghost work = seq![
        "--direct-args"@,
        "--measure"@,
        design.measure@,
        "--count"@,
        decimal(workload.count as nat),
        "--sessions"@,
        decimal(workload.sessions as nat),
        "--blocks"@,
        decimal(blocks as nat),
        "--order-seed"@,
        decimal(phase.order_seed as nat),
        "--timeout-ms"@,
        decimal(design.limits.subject_timeout_ms as nat),
        "--max-output-bytes"@,
        decimal(design.limits.max_output_bytes as nat),
    ];
    assert(views(args@) =~= before + work);
    push_values(args, "--seed", &number_texts(&phase.seeds));
    proof {
        let seeds = as_values("--seed"@, all_decimal(phase.seeds@));
        assert(before + work + seeds =~= before + (work + seeds));
    }
}

/// Write the arguments of the calibration of a workload.
pub fn calibration_args(design: &CampaignDesign, workload: &WorkloadDesign, target: &str) -> (args:
    Vec<String>)
    ensures
        views(args@) == calibration_command(*design, *workload, target@),
{
    let mut args: Vec<String> = Vec::new();
    args.push("--aa".to_owned());
    args.push(design.baseline.binary.as_str().to_owned());
    assert(views(args@) =~= seq!["--aa"@, design.baseline.binary@]);
    push_values(&mut args, "--subject-arg", &shared(&design.baseline, workload));
    push_work(&mut args, design, workload, &design.calibration, workload.calibration_blocks);
    let ghost was = views(args@);
    args.push("--target-speedup".to_owned());
    args.push(target.to_owned());
    assert(views(args@) =~= was + seq!["--target-speedup"@, target@]);
    args
}

/// Write the arguments of a comparison of two artifacts on a workload.
pub fn comparison_args(
    design: &CampaignDesign,
    baseline: &ArtifactDesign,
    candidate: &ArtifactDesign,
    workload: &WorkloadDesign,
    blocks: usize,
    held_out: bool,
) -> (args: Vec<String>)
    ensures
        views(args@) == comparison_command(
            *design,
            *baseline,
            *candidate,
            *workload,
            blocks,
            held_out,
        ),
{
    let mut args: Vec<String> = Vec::new();
    args.push("--baseline".to_owned());
    args.push(baseline.binary.as_str().to_owned());
    args.push("--candidate".to_owned());
    args.push(candidate.binary.as_str().to_owned());
    assert(views(args@) =~= seq![
        "--baseline"@,
        baseline.binary@,
        "--candidate"@,
        candidate.binary@,
    ]);
    push_values(&mut args, "--baseline-arg", &shared(baseline, workload));
    push_values(&mut args, "--candidate-arg", &shared(candidate, workload));
    if held_out {
        push_work(&mut args, design, workload, &design.confirmation, blocks);
        let held = "--held-out".to_owned();
        proof {
            lemma_views_push(args@, held);
        }
        args.push(held);
    } else {
        push_work(&mut args, design, workload, &design.exploration, blocks);
    }
    args
}

/// A confirmation does not use what the exploration used: in an accepted design its seeds are
/// other seeds and its order another order, and it alone is held out.
#[verifier::spinoff_prover]
#[verifier::rlimit(40)]
pub proof fn confirmations_are_fresh(
    design: CampaignDesign,
    baseline: ArtifactDesign,
    candidate: ArtifactDesign,
    workload: WorkloadDesign,
    blocks: usize,
    seed: u64,
)
    requires
        complaint_about(design) is None,
    ensures
        ({
            let screen = comparison_command(design, baseline, candidate, workload, blocks, false);
            let confirm = comparison_command(design, baseline, candidate, workload, blocks, true);
            &&& confirm.contains("--held-out"@) && confirm.last() == "--held-out"@
            &&& screen.take(4) == confirm.take(4)
            &&& !share_a_seed(design.exploration.seeds@, design.confirmation.seeds@)
            &&& screen == seq![
                "--baseline"@,
                baseline.binary@,
                "--candidate"@,
                candidate.binary@,
            ] + as_values("--baseline-arg"@, shared_args(baseline, workload)) + as_values(
                "--candidate-arg"@,
                shared_args(candidate, workload),
            ) + work_line(design, workload, design.exploration, blocks)
            &&& confirm.drop_last() == seq![
                "--baseline"@,
                baseline.binary@,
                "--candidate"@,
                candidate.binary@,
            ] + as_values("--baseline-arg"@, shared_args(baseline, workload)) + as_values(
                "--candidate-arg"@,
                shared_args(candidate, workload),
            ) + work_line(design, workload, design.confirmation, blocks)
        }),
{
    let screen = comparison_command(design, baseline, candidate, workload, blocks, false);
    let confirm = comparison_command(design, baseline, candidate, workload, blocks, true);
    assert(confirm[confirm.len() - 1] == "--held-out"@);
    assert(screen.take(4) =~= confirm.take(4));
    assert(confirm.drop_last().push("--held-out"@) =~= confirm);
}

/// The artifacts of a campaign are the baseline and the candidates, each in its place.
pub proof fn artifacts_are_in_their_places(design: CampaignDesign, c: usize)
    ensures
        artifact_of(design, Artifact::Original) == design.baseline,
        artifact_of(design, Artifact::Candidate(c)) == design.candidates@[c as int],
{
}

/// An artifact on a workload has the arguments of the artifact, in their order, and then those
/// of the workload.
pub proof fn arguments_are_shared_in_order(artifact: ArtifactDesign, workload: WorkloadDesign)
    ensures
        ({
            let all = shared_args(artifact, workload);
            let n = artifact.args@.len() as int;
            &&& all.len() == n + workload.args@.len()
            &&& forall|i: int| 0 <= i < n ==> #[trigger] all[i] == artifact.args@[i]@
            &&& forall|i: int|
                0 <= i < workload.args@.len() ==> #[trigger] all[n + i] == workload.args@[i]@
        }),
{
}

}
