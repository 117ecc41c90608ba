//! What a comparison reports, as the campaign reads it: whether its plan is the one that was
//! registered, whether its result is of all of it, and the verdict.
use crate::arguments::Design;
use crate::campaign::{field, field_in, find_line, first_line, first_value, verdict_in};
use crate::paired::{
    evidence_of, experiment_of, order_names, order_source_of, plan_of, result_start, result_text,
    schedule_shown, schedule_text, scope_of, seeds_shown, seeds_text, transport_of, turn_text,
    with_summary, SummaryText, Turn,
};
use crate::record::{randomized_schedule, schedule_of, BlockOrder, Label};
use crate::text::{
    all_decimal, begins_with, behind, decimal, field_text, is_solid, is_white, joined, lacks,
    lemma_decimal_is_solid, lemma_field_key, lemma_no_field, lemma_word, lemma_words_add,
    lemma_words_field, lines_of, number_is_read_back, number_text, said, same_text, split_words,
    strip_prefix, views, words_of,
};
use vstd::prelude::*;

verus! {

// ---------------------------------------------------------------------------
// Results.
// ---------------------------------------------------------------------------

proof fn lemma_first_push(words: Seq<Seq<char>>, word: Seq<char>, key: Seq<char>)
    ensures
        first_value(words.push(word), key) == (match first_value(words, key) {
            Some(value) => Some(value),
            None => behind(word, key + "="@),
        }),
    decreases words.len(),
{
    let more = words.push(word);
    if words.len() > 0 {
        assert(more[0] == words[0]);
        assert(more.drop_first() =~= words.drop_first().push(word));
        lemma_first_push(words.drop_first(), word, key);
    } else {
        assert(more[0] == word);
        assert(more.drop_first() =~= Seq::empty());
        assert(first_value(more.drop_first(), key) is None);
    }
}

/// A field more is found if no earlier one has its name.
proof fn lemma_field_more(
    text: Seq<char>,
    opening: Seq<char>,
    name: Seq<char>,
    value: Seq<char>,
    key: Seq<char>,
)
    requires
        opening == seq![' '] + name + seq!['='],
        is_solid(name),
        is_solid(value),
        lacks(name, '='),
        lacks(key, '='),
    ensures
        field_in(text + opening + value, key) == (match field_in(text, key) {
            Some(found) => Some(found),
            None => if name == key {
                Some(value)
            } else {
                None
            },
        }),
{
    lemma_words_field(text, opening, name, value);
    lemma_first_push(words_of(text), field_text(name, value), key);
    lemma_field_key(name, value, key);
}

/// Whether `opening` is what stands before the value of the field `name`.
pub open spec fn opens(opening: Seq<char>, name: Seq<char>) -> bool {
    &&& opening == seq![' '] + name + seq!['=']
    &&& is_solid(name)
    &&& lacks(name, '=')
}

/// The openings of the fields of a report.
#[verifier::spinoff_prover]
proof fn lemma_openings()
    ensures
        "experiment"@.len() == 10,
        opens(" scope="@, "scope"@) && "scope"@.len() == 5,
        opens(" mode="@, "mode"@) && "mode"@.len() == 4,
        opens(" valid_blocks="@, "valid_blocks"@) && "valid_blocks"@.len() == 12,
        opens(" planned_blocks="@, "planned_blocks"@) && "planned_blocks"@.len() == 14,
        opens(" invalid_blocks="@, "invalid_blocks"@) && "invalid_blocks"@.len() == 14,
        opens(" mean_log_ratio="@, "mean_log_ratio"@) && "mean_log_ratio"@.len() == 14,
        opens(" log_ratio_sd="@, "log_ratio_sd"@) && "log_ratio_sd"@.len() == 12,
        opens(" speedup_ratio="@, "speedup_ratio"@) && "speedup_ratio"@.len() == 13,
        opens(" speedup_percent="@, "speedup_percent"@) && "speedup_percent"@.len() == 15,
        opens(" lower_95_one_sided_ratio="@, "lower_95_one_sided_ratio"@),
        "lower_95_one_sided_ratio"@.len() == 24,
        opens(" lower_95_one_sided_percent="@, "lower_95_one_sided_percent"@),
        "lower_95_one_sided_percent"@.len() == 26,
        opens(" evidence="@, "evidence"@) && "evidence"@.len() == 8,
{
    reveal_strlit("experiment");
    assert(opens(" scope="@, "scope"@) && "scope"@.len() == 5) by {
        reveal_strlit(" scope=");
        reveal_strlit("scope");
        assert(" scope="@ =~= seq![' '] + "scope"@ + seq!['=']);
    }
    assert(opens(" mode="@, "mode"@) && "mode"@.len() == 4) by {
        reveal_strlit(" mode=");
        reveal_strlit("mode");
        assert(" mode="@ =~= seq![' '] + "mode"@ + seq!['=']);
    }
    assert(opens(" valid_blocks="@, "valid_blocks"@) && "valid_blocks"@.len() == 12) by {
        reveal_strlit(" valid_blocks=");
        reveal_strlit("valid_blocks");
        assert(" valid_blocks="@ =~= seq![' '] + "valid_blocks"@ + seq!['=']);
    }
    assert(opens(" planned_blocks="@, "planned_blocks"@) && "planned_blocks"@.len() == 14) by {
        reveal_strlit(" planned_blocks=");
        reveal_strlit("planned_blocks");
        assert(" planned_blocks="@ =~= seq![' '] + "planned_blocks"@ + seq!['=']);
    }
    assert(opens(" invalid_blocks="@, "invalid_blocks"@) && "invalid_blocks"@.len() == 14) by {
        reveal_strlit(" invalid_blocks=");
        reveal_strlit("invalid_blocks");
        assert(" invalid_blocks="@ =~= seq![' '] + "invalid_blocks"@ + seq!['=']);
    }
    assert(opens(" mean_log_ratio="@, "mean_log_ratio"@) && "mean_log_ratio"@.len() == 14) by {
        reveal_strlit(" mean_log_ratio=");
        reveal_strlit("mean_log_ratio");
        assert(" mean_log_ratio="@ =~= seq![' '] + "mean_log_ratio"@ + seq!['=']);
    }
    assert(opens(" log_ratio_sd="@, "log_ratio_sd"@) && "log_ratio_sd"@.len() == 12) by {
        reveal_strlit(" log_ratio_sd=");
        reveal_strlit("log_ratio_sd");
        assert(" log_ratio_sd="@ =~= seq![' '] + "log_ratio_sd"@ + seq!['=']);
    }
    assert(opens(" speedup_ratio="@, "speedup_ratio"@) && "speedup_ratio"@.len() == 13) by {
        reveal_strlit(" speedup_ratio=");
        reveal_strlit("speedup_ratio");
        assert(" speedup_ratio="@ =~= seq![' '] + "speedup_ratio"@ + seq!['=']);
    }
    assert(opens(" speedup_percent="@, "speedup_percent"@) && "speedup_percent"@.len() == 15) by {
        reveal_strlit(" speedup_percent=");
        reveal_strlit("speedup_percent");
        assert(" speedup_percent="@ =~= seq![' '] + "speedup_percent"@ + seq!['=']);
    }
    assert(opens(" lower_95_one_sided_ratio="@, "lower_95_one_sided_ratio"@) && "lower_95_one_sided_ratio"@.len()
        == 24) by {
        reveal_strlit(" lower_95_one_sided_ratio=");
        reveal_strlit("lower_95_one_sided_ratio");
        let name = "lower_95_one_sided_ratio"@;
        assert(" lower_95_one_sided_ratio="@ =~= seq![' '] + name + seq!['=']);
    }
    assert(opens(" lower_95_one_sided_percent="@, "lower_95_one_sided_percent"@) && "lower_95_one_sided_percent"@.len()
        == 26) by {
        reveal_strlit(" lower_95_one_sided_percent=");
        reveal_strlit("lower_95_one_sided_percent");
        let name = "lower_95_one_sided_percent"@;
        assert(" lower_95_one_sided_percent="@ =~= seq![' '] + name + seq!['=']);
    }
    assert(opens(" evidence="@, "evidence"@) && "evidence"@.len() == 8) by {
        reveal_strlit(" evidence=");
        reveal_strlit("evidence");
        assert(" evidence="@ =~= seq![' '] + "evidence"@ + seq!['=']);
    }
}

/// A line begins with what it is, and with the kind of experiment that it is of.
proof fn lemma_head(head: Seq<char>, opening: Seq<char>, experiment: Seq<char>, key: Seq<char>)
    requires
        head.len() > 0,
        is_solid(head),
        lacks(head, '='),
        opening == head + " experiment="@,
        is_solid(experiment),
        lacks(key, '='),
    ensures
        field_in(opening + experiment, key) == (if key == "experiment"@ {
            Some(experiment)
        } else {
            None
        }),
{
    reveal_strlit(" experiment=");
    reveal_strlit("experiment");
    let field = seq![' '] + "experiment"@ + seq!['='];
    assert(" experiment="@ =~= field);
    assert(opening + experiment =~= head + field + experiment);
    lemma_word(head);
    lemma_no_field(head, key);
    assert(words_of(head).drop_first() =~= Seq::empty());
    assert(first_value(words_of(head).drop_first(), key) is None);
    lemma_field_more(head, field, "experiment"@, experiment, key);
}

/// The value of `key` in the report of a comparison up to its statistics.
proof fn lemma_result_start(design: Design, valid: nat, invalid: nat, key: Seq<char>)
    requires
        is_solid(design.measure),
        lacks(key, '='),
    ensures
        field_in(result_start(design, valid, invalid), key) == (if key == "experiment"@ {
            Some(experiment_of(design))
        } else if key == "scope"@ {
            Some(scope_of(design))
        } else if key == "mode"@ {
            Some(design.measure)
        } else if key == "valid_blocks"@ {
            Some(decimal(valid))
        } else if key == "planned_blocks"@ {
            Some(decimal(design.schedule.len()))
        } else if key == "invalid_blocks"@ {
            Some(decimal(invalid))
        } else {
            None
        }),
{
    lemma_openings();
    let experiment = experiment_of(design);
    let scope = scope_of(design);
    lemma_solid_names(design);
    lemma_decimal_is_solid(valid);
    lemma_decimal_is_solid(design.schedule.len());
    lemma_decimal_is_solid(invalid);
    assert("RESULT experiment="@ == "RESULT"@ + " experiment="@ && is_solid("RESULT"@) && lacks(
        "RESULT"@,
        '=',
    ) && "RESULT"@.len() > 0) by {
        reveal_strlit("RESULT");
        reveal_strlit(" experiment=");
        reveal_strlit("RESULT experiment=");
        assert("RESULT experiment="@ =~= "RESULT"@ + " experiment="@);
    }
    lemma_head("RESULT"@, "RESULT experiment="@, experiment, key);
    let a = "RESULT experiment="@ + experiment;
    lemma_field_more(a, " scope="@, "scope"@, scope, key);
    let b = a + " scope="@ + scope;
    lemma_field_more(b, " mode="@, "mode"@, design.measure, key);
    let c = b + " mode="@ + design.measure;
    lemma_field_more(c, " valid_blocks="@, "valid_blocks"@, decimal(valid), key);
    let d = c + " valid_blocks="@ + decimal(valid);
    let planned = decimal(design.schedule.len());
    lemma_field_more(d, " planned_blocks="@, "planned_blocks"@, planned, key);
    let e = d + " planned_blocks="@ + planned;
    lemma_field_more(e, " invalid_blocks="@, "invalid_blocks"@, decimal(invalid), key);
}

/// The kind of an experiment and its scope are one word each.
proof fn lemma_solid_names(design: Design)
    ensures
        is_solid(experiment_of(design)),
        is_solid(scope_of(design)),
{
    reveal_strlit("AA");
    reveal_strlit("AB");
    reveal_strlit("calibration");
    reveal_strlit("held_out_confirmation");
    reveal_strlit("exploratory_per_candidate");
}

/// So is what a result is evidence of.
proof fn lemma_solid_evidence(design: Design, invalid: nat, faster: bool)
    ensures
        is_solid(evidence_of(design, invalid, faster)),
{
    reveal_strlit("invalid_design");
    reveal_strlit("calibration_only");
    reveal_strlit("candidate_faster");
    reveal_strlit("inconclusive");
    reveal_strlit("screen_positive");
    reveal_strlit("screen_inconclusive");
}

/// Whether the statistics are written without white space.
pub open spec fn is_solid_summary(summary: SummaryText) -> bool {
    &&& is_solid(summary.mean_log_ratio@)
    &&& is_solid(summary.log_ratio_sd@)
    &&& is_solid(summary.speedup_ratio@)
    &&& is_solid(summary.speedup_percent@)
    &&& is_solid(summary.lower_ratio@)
    &&& is_solid(summary.lower_percent@)
}

/// The values that a verdict is made of, in the report of a comparison with statistics.
proof fn lemma_result_values(
    design: Design,
    valid: nat,
    invalid: nat,
    summary: SummaryText,
    faster: bool,
    key: Seq<char>,
)
    requires
        is_solid(design.measure),
        is_solid_summary(summary),
        key == "speedup_percent"@ || key == "lower_95_one_sided_ratio"@ || key == "evidence"@,
    ensures
        field_in(result_text(design, valid, invalid, Some(summary), faster), key) == Some(
            if key == "speedup_percent"@ {
                summary.speedup_percent@
            } else if key == "lower_95_one_sided_ratio"@ {
                summary.lower_ratio@
            } else {
                evidence_of(design, invalid, faster)
            },
        ),
{
    lemma_openings();
    lemma_result_start(design, valid, invalid, key);
    let s = summary;
    let a = result_start(design, valid, invalid);
    lemma_field_more(a, " mean_log_ratio="@, "mean_log_ratio"@, s.mean_log_ratio@, key);
    let b = a + " mean_log_ratio="@ + s.mean_log_ratio@;
    lemma_field_more(b, " log_ratio_sd="@, "log_ratio_sd"@, s.log_ratio_sd@, key);
    let c = b + " log_ratio_sd="@ + s.log_ratio_sd@;
    lemma_field_more(c, " speedup_ratio="@, "speedup_ratio"@, s.speedup_ratio@, key);
    let d = c + " speedup_ratio="@ + s.speedup_ratio@;
    lemma_field_more(d, " speedup_percent="@, "speedup_percent"@, s.speedup_percent@, key);
    let e = d + " speedup_percent="@ + s.speedup_percent@;
    let lower = "lower_95_one_sided_ratio"@;
    lemma_field_more(e, " lower_95_one_sided_ratio="@, lower, s.lower_ratio@, key);
    let f = e + " lower_95_one_sided_ratio="@ + s.lower_ratio@;
    let percent = "lower_95_one_sided_percent"@;
    lemma_field_more(f, " lower_95_one_sided_percent="@, percent, s.lower_percent@, key);
    let g = f + " lower_95_one_sided_percent="@ + s.lower_percent@;
    lemma_solid_evidence(design, invalid, faster);
    let evidence = evidence_of(design, invalid, faster);
    lemma_field_more(g, " evidence="@, "evidence"@, evidence, key);
}

proof fn lemma_first_line(
    before: Seq<Seq<char>>,
    line: Seq<char>,
    after: Seq<Seq<char>>,
    start: Seq<char>,
)
    requires
        forall|i: int| 0 <= i < before.len() ==> !begins_with(#[trigger] before[i], start),
        begins_with(line, start),
    ensures
        first_line(before + seq![line] + after, start) == Some(line),
    decreases before.len(),
{
    let lines = before + seq![line] + after;
    if before.len() == 0 {
        assert(lines[0] == line);
    } else {
        assert(lines[0] == before[0]);
        let rest = before.drop_first();
        assert(lines.drop_first() =~= rest + seq![line] + after);
        assert forall|i: int| 0 <= i < rest.len() implies !begins_with(
            #[trigger] rest[i],
            start,
        ) by {
            assert(rest[i] == before[i + 1]);
        }
        lemma_first_line(rest, line, after, start);
    }
}

proof fn lemma_result_begins(
    design: Design,
    valid: nat,
    invalid: nat,
    summary: Option<SummaryText>,
    faster: bool,
)
    ensures
        begins_with(result_text(design, valid, invalid, summary, faster), "RESULT"@),
{
    reveal_strlit("RESULT");
    reveal_strlit("RESULT experiment=");
    let start = result_start(design, valid, invalid);
    assert(start.len() >= 6 && start.take(6) =~= "RESULT"@);
    let middle = with_summary(start, summary);
    assert(middle.len() >= 6 && middle.take(6) =~= start.take(6));
    let text = result_text(design, valid, invalid, summary, faster);
    assert(text.take(6) =~= middle.take(6));
}

/// The campaign reads from the output of a comparison what the comparison reported: its lower
/// bound, its speedup and its evidence.
pub proof fn results_are_read_back(
    design: Design,
    valid: nat,
    invalid: nat,
    summary: SummaryText,
    faster: bool,
    output: Seq<char>,
    before: Seq<Seq<char>>,
    after: Seq<Seq<char>>,
)
    requires
        is_solid(design.measure),
        is_solid_summary(summary),
        lines_of(output) == before + seq![
            result_text(design, valid, invalid, Some(summary), faster),
        ] + after,
        forall|i: int| 0 <= i < before.len() ==> !begins_with(#[trigger] before[i], "RESULT"@),
    ensures
        verdict_in(output) == Ok::<(Seq<char>, Option<Seq<char>>, Seq<char>), Seq<char>>(
            (
                summary.lower_ratio@,
                Some(summary.speedup_percent@),
                evidence_of(design, invalid, faster),
            ),
        ),
{
    let line = result_text(design, valid, invalid, Some(summary), faster);
    lemma_result_begins(design, valid, invalid, Some(summary), faster);
    lemma_first_line(before, line, after, "RESULT"@);
    lemma_openings();
    lemma_result_values(design, valid, invalid, summary, faster, "speedup_percent"@);
    lemma_result_values(design, valid, invalid, summary, faster, "lower_95_one_sided_ratio"@);
    lemma_result_values(design, valid, invalid, summary, faster, "evidence"@);
}

/// A comparison without statistics gives no verdict.
pub proof fn results_without_statistics_give_no_verdict(
    design: Design,
    valid: nat,
    invalid: nat,
    faster: bool,
    output: Seq<char>,
    before: Seq<Seq<char>>,
    after: Seq<Seq<char>>,
)
    requires
        is_solid(design.measure),
        lines_of(output) == before + seq![
            result_text(design, valid, invalid, None, faster),
        ] + after,
        forall|i: int| 0 <= i < before.len() ==> !begins_with(#[trigger] before[i], "RESULT"@),
    ensures
        verdict_in(output) is Err,
{
    let line = result_text(design, valid, invalid, None, faster);
    lemma_result_begins(design, valid, invalid, None, faster);
    lemma_first_line(before, line, after, "RESULT"@);
    lemma_openings();
    let key = "lower_95_one_sided_ratio"@;
    let start = result_start(design, valid, invalid);
    lemma_result_start(design, valid, invalid, key);
    lemma_solid_evidence(design, invalid, faster);
    let evidence = evidence_of(design, invalid, faster);
    lemma_field_more(start, " evidence="@, "evidence"@, evidence, key);
}

// ---------------------------------------------------------------------------
// Plans.
// ---------------------------------------------------------------------------

/// What a comparison was registered as.
pub struct Registration {
    pub experiment: String,
    pub scope: String,
    pub measure: String,
    pub count: u64,
    pub sessions: u64,
    pub blocks: usize,
    pub order_seed: u64,
    pub seeds: Vec<u64>,
}

/// The value of the last word `key=value`.
pub open spec fn last_value(words: Seq<Seq<char>>, key: Seq<char>) -> Option<Seq<char>>
    decreases words.len(),
{
    if words.len() == 0 {
        None
    } else {
        match behind(words.last(), key + "="@) {
            Some(value) => Some(value),
            None => last_value(words.drop_last(), key),
        }
    }
}

/// The value of `key` in a line of words, if it is given more than once the last one.
pub open spec fn last_field_in(line: Seq<char>, key: Seq<char>) -> Option<Seq<char>> {
    last_value(words_of(line), key)
}

fn last_field(line: &str, key: &str) -> (value: Option<String>)
    ensures
        match value {
            Some(v) => last_field_in(line@, key@) == Some(v@),
            None => last_field_in(line@, key@) is None,
        },
{
    let words = split_words(line);
    let prefix = key.to_owned().concat("=");
    let ghost whole = views(words@);
    let mut i: usize = words.len();
    assert(whole.take(i as int) =~= whole);
    while i > 0
        invariant
            i <= words.len(),
            whole == views(words@),
            whole == words_of(line@),
            prefix@ == key@ + "="@,
            last_value(whole, key@) == last_value(whole.take(i as int), key@),
        decreases i,
    {
        i -= 1;
        proof {
            let more = whole.take(i + 1);
            assert(more.last() == words@[i as int]@);
            assert(more.drop_last() =~= whole.take(i as int));
        }
        match strip_prefix(words[i].as_str(), prefix.as_str()) {
            Some(value) => return Some(value.to_owned()),
            None => {},
        }
    }
    None
}

/// What is said of a plan that does not echo what was registered.
pub open spec fn no_echo(key: Seq<char>) -> Seq<char> {
    "PLAN does not echo the registered `"@ + key + "`"@
}

/// Where the output of a comparison does not echo what it was registered as.
pub open spec fn plan_complaint(output: Seq<char>, registered: Registration) -> Option<Seq<char>> {
    match first_line(lines_of(output), "PLAN"@) {
        None => Some("optikit-paired produced no PLAN line"@),
        Some(line) => if field_in(line, "experiment"@) != Some(registered.experiment@) {
            Some(no_echo("experiment"@))
        } else if field_in(line, "scope"@) != Some(registered.scope@) {
            Some(no_echo("scope"@))
        } else if field_in(line, "mode"@) != Some(registered.measure@) {
            Some(no_echo("mode"@))
        } else if last_field_in(line, "count"@) != Some(decimal(registered.count as nat)) {
            Some(no_echo("count"@))
        } else if last_field_in(line, "sessions"@) != Some(decimal(registered.sessions as nat)) {
            Some(no_echo("sessions"@))
        } else if last_field_in(line, "blocks"@) != Some(decimal(registered.blocks as nat)) {
            Some(no_echo("blocks"@))
        } else if last_field_in(line, "order_source"@) != Some(
            "random:"@ + decimal(registered.order_seed as nat),
        ) {
            Some(no_echo("order_source"@))
        } else if last_field_in(line, "schedule"@) != Some(
            schedule_shown(schedule_of(registered.blocks as nat, registered.order_seed)),
        ) {
            Some(no_echo("schedule"@))
        } else if last_field_in(line, "seeds"@) != Some(seeds_shown(registered.seeds@)) {
            Some(no_echo("seeds"@))
        } else {
            None
        },
    }
}

fn is_echoed(value: &Option<String>, expected: &str) -> (yes: bool)
    ensures
        yes == (said(*value) == Some(expected@)),
{
    match value {
        Some(text) => same_text(text.as_str(), expected),
        None => false,
    }
}

fn not_echoed(key: &str) -> (complaint: String)
    ensures
        complaint@ == no_echo(key@),
{
    "PLAN does not echo the registered `".to_owned().concat(key).concat("`")
}

/// Check that a comparison announced the plan that it was registered with.
pub fn check_plan(output: &str, registered: &Registration) -> (checked: Result<(), String>)
    ensures
        match checked {
            Ok(_) => plan_complaint(output@, *registered) is None,
            Err(e) => plan_complaint(output@, *registered) == Some(e@),
        },
{
    let line = match find_line(output, "PLAN") {
        Some(line) => line,
        None => return Err("optikit-paired produced no PLAN line".to_owned()),
    };
    let line = line.as_str();
    if !is_echoed(&field(line, "experiment"), registered.experiment.as_str()) {
        return Err(not_echoed("experiment"));
    }
    if !is_echoed(&field(line, "scope"), registered.scope.as_str()) {
        return Err(not_echoed("scope"));
    }
    if !is_echoed(&field(line, "mode"), registered.measure.as_str()) {
        return Err(not_echoed("mode"));
    }
    let count = number_text(registered.count as u128);
    if !is_echoed(&last_field(line, "count"), count.as_str()) {
        return Err(not_echoed("count"));
    }
    let sessions = number_text(registered.sessions as u128);
    if !is_echoed(&last_field(line, "sessions"), sessions.as_str()) {
        return Err(not_echoed("sessions"));
    }
    let blocks = number_text(registered.blocks as u128);
    if !is_echoed(&last_field(line, "blocks"), blocks.as_str()) {
        return Err(not_echoed("blocks"));
    }
    let source = "random:".to_owned().concat(number_text(registered.order_seed as u128).as_str());
    if !is_echoed(&last_field(line, "order_source"), source.as_str()) {
        return Err(not_echoed("order_source"));
    }
    let schedule = randomized_schedule(registered.blocks, registered.order_seed);
    if !is_echoed(&last_field(line, "schedule"), schedule_text(&schedule).as_str()) {
        return Err(not_echoed("schedule"));
    }
    if !is_echoed(&last_field(line, "seeds"), seeds_text(&registered.seeds).as_str()) {
        return Err(not_echoed("seeds"));
    }
    Ok(())
}

/// What is said of a result that is not of all that was registered.
pub open spec fn no_result(key: Seq<char>) -> Seq<char> {
    "RESULT does not fit the registered `"@ + key + "`"@
}

/// Where the result of a comparison is not of all that was registered.
pub open spec fn result_complaint(output: Seq<char>, registered: Registration) -> Option<
    Seq<char>,
> {
    match first_line(lines_of(output), "RESULT"@) {
        None => Some("optikit-paired produced no RESULT line"@),
        Some(line) => if field_in(line, "experiment"@) != Some(registered.experiment@) {
            Some(no_result("experiment"@))
        } else if field_in(line, "scope"@) != Some(registered.scope@) {
            Some(no_result("scope"@))
        } else if field_in(line, "valid_blocks"@) != Some(decimal(registered.blocks as nat)) {
            Some(no_result("valid_blocks"@))
        } else if field_in(line, "planned_blocks"@) != Some(decimal(registered.blocks as nat)) {
            Some(no_result("planned_blocks"@))
        } else if field_in(line, "invalid_blocks"@) != Some(decimal(0)) {
            Some(no_result("invalid_blocks"@))
        } else {
            None
        },
    }
}

fn not_fitting(key: &str) -> (complaint: String)
    ensures
        complaint@ == no_result(key@),
{
    "RESULT does not fit the registered `".to_owned().concat(key).concat("`")
}

/// Check that the result of a comparison is of every block that was registered.
pub fn check_result(output: &str, registered: &Registration) -> (checked: Result<(), String>)
    ensures
        match checked {
            Ok(_) => result_complaint(output@, *registered) is None,
            Err(e) => result_complaint(output@, *registered) == Some(e@),
        },
{
    let line = match find_line(output, "RESULT") {
        Some(line) => line,
        None => return Err("optikit-paired produced no RESULT line".to_owned()),
    };
    let line = line.as_str();
    if !is_echoed(&field(line, "experiment"), registered.experiment.as_str()) {
        return Err(not_fitting("experiment"));
    }
    if !is_echoed(&field(line, "scope"), registered.scope.as_str()) {
        return Err(not_fitting("scope"));
    }
    let blocks = number_text(registered.blocks as u128);
    if !is_echoed(&field(line, "valid_blocks"), blocks.as_str()) {
        return Err(not_fitting("valid_blocks"));
    }
    if !is_echoed(&field(line, "planned_blocks"), blocks.as_str()) {
        return Err(not_fitting("planned_blocks"));
    }
    if !is_echoed(&field(line, "invalid_blocks"), number_text(0).as_str()) {
        return Err(not_fitting("invalid_blocks"));
    }
    Ok(())
}

/// Whether a comparison is set up as it was registered.
pub open spec fn is_registered(design: Design, registered: Registration) -> bool {
    &&& registered.experiment@ == experiment_of(design)
    &&& registered.scope@ == scope_of(design)
    &&& registered.measure@ == design.measure
    &&& registered.count == design.count
    &&& registered.sessions == design.sessions
    &&& registered.seeds@ == design.seeds
    &&& design.order_seed == Some(registered.order_seed)
    &&& design.schedule == schedule_of(registered.blocks as nat, registered.order_seed)
}

/// What is found in a line is still found where a field is added.
proof fn lemma_found_stays(
    text: Seq<char>,
    opening: Seq<char>,
    name: Seq<char>,
    value: Seq<char>,
    key: Seq<char>,
)
    requires
        opens(opening, name),
        is_solid(value),
        lacks(key, '='),
        field_in(text, key) is Some,
    ensures
        field_in(text + opening + value, key) == field_in(text, key),
{
    lemma_field_more(text, opening, name, value, key);
}

proof fn lemma_result_early(
    design: Design,
    valid: nat,
    invalid: nat,
    summary: SummaryText,
    faster: bool,
    key: Seq<char>,
)
    requires
        is_solid(design.measure),
        is_solid_summary(summary),
        lacks(key, '='),
        field_in(result_start(design, valid, invalid), key) is Some,
    ensures
        field_in(result_text(design, valid, invalid, Some(summary), faster), key) == field_in(
            result_start(design, valid, invalid),
            key,
        ),
{
    lemma_openings();
    let s = summary;
    let a = result_start(design, valid, invalid);
    lemma_found_stays(a, " mean_log_ratio="@, "mean_log_ratio"@, s.mean_log_ratio@, key);
    let b = a + " mean_log_ratio="@ + s.mean_log_ratio@;
    lemma_found_stays(b, " log_ratio_sd="@, "log_ratio_sd"@, s.log_ratio_sd@, key);
    let c = b + " log_ratio_sd="@ + s.log_ratio_sd@;
    lemma_found_stays(c, " speedup_ratio="@, "speedup_ratio"@, s.speedup_ratio@, key);
    let d = c + " speedup_ratio="@ + s.speedup_ratio@;
    lemma_found_stays(d, " speedup_percent="@, "speedup_percent"@, s.speedup_percent@, key);
    let e = d + " speedup_percent="@ + s.speedup_percent@;
    let lower = "lower_95_one_sided_ratio"@;
    lemma_found_stays(e, " lower_95_one_sided_ratio="@, lower, s.lower_ratio@, key);
    let f = e + " lower_95_one_sided_ratio="@ + s.lower_ratio@;
    let percent = "lower_95_one_sided_percent"@;
    lemma_found_stays(f, " lower_95_one_sided_percent="@, percent, s.lower_percent@, key);
    let g = f + " lower_95_one_sided_percent="@ + s.lower_percent@;
    lemma_solid_evidence(design, invalid, faster);
    let evidence = evidence_of(design, invalid, faster);
    lemma_found_stays(g, " evidence="@, "evidence"@, evidence, key);
}

/// The result of a registered comparison is accepted if and only if every block is valid.
pub proof fn complete_results_are_accepted(
    design: Design,
    registered: Registration,
    valid: nat,
    invalid: nat,
    summary: SummaryText,
    faster: bool,
    output: Seq<char>,
    before: Seq<Seq<char>>,
    after: Seq<Seq<char>>,
)
    requires
        is_registered(design, registered),
        valid + invalid == design.schedule.len(),
        is_solid(design.measure),
        is_solid_summary(summary),
        lines_of(output) == before + seq![
            result_text(design, valid, invalid, Some(summary), faster),
        ] + after,
        forall|i: int| 0 <= i < before.len() ==> !begins_with(#[trigger] before[i], "RESULT"@),
    ensures
        result_complaint(output, registered) is None <==> invalid == 0,
{
    let line = result_text(design, valid, invalid, Some(summary), faster);
    lemma_result_begins(design, valid, invalid, Some(summary), faster);
    lemma_first_line(before, line, after, "RESULT"@);
    lemma_openings();
    lemma_experiment();
    reveal_strlit("planned_blocks");
    reveal_strlit("invalid_blocks");
    assert("planned_blocks"@[0] != "invalid_blocks"@[0]);
    lemma_result_start(design, valid, invalid, "experiment"@);
    lemma_result_start(design, valid, invalid, "scope"@);
    lemma_result_start(design, valid, invalid, "valid_blocks"@);
    lemma_result_start(design, valid, invalid, "planned_blocks"@);
    lemma_result_start(design, valid, invalid, "invalid_blocks"@);
    lemma_result_early(design, valid, invalid, summary, faster, "experiment"@);
    lemma_result_early(design, valid, invalid, summary, faster, "scope"@);
    lemma_result_early(design, valid, invalid, summary, faster, "valid_blocks"@);
    lemma_result_early(design, valid, invalid, summary, faster, "planned_blocks"@);
    lemma_result_early(design, valid, invalid, summary, faster, "invalid_blocks"@);
    if invalid > 0 && decimal(invalid) == decimal(0) {
        number_is_read_back(invalid, invalid);
        number_is_read_back(0, invalid);
    }
}

proof fn lemma_experiment()
    ensures
        is_solid("experiment"@),
        lacks("experiment"@, '='),
{
    reveal_strlit("experiment");
}

/// The openings of the fields at the end of a plan.
#[verifier::spinoff_prover]
proof fn lemma_plan_openings()
    ensures
        opens(" count="@, "count"@) && "count"@.len() == 5,
        opens(" sessions="@, "sessions"@) && "sessions"@.len() == 8,
        opens(" blocks="@, "blocks"@) && "blocks"@.len() == 6,
        opens(" order_source="@, "order_source"@) && "order_source"@.len() == 12,
        opens(" schedule="@, "schedule"@) && "schedule"@.len() == 8,
        opens(" seeds="@, "seeds"@) && "seeds"@.len() == 5,
        "count"@ != "seeds"@,
        "sessions"@ != "schedule"@,
{
    assert(opens(" count="@, "count"@) && "count"@.len() == 5) by {
        reveal_strlit(" count=");
        reveal_strlit("count");
        assert(" count="@ =~= seq![' '] + "count"@ + seq!['=']);
    }
    assert(opens(" sessions="@, "sessions"@) && "sessions"@.len() == 8) by {
        reveal_strlit(" sessions=");
        reveal_strlit("sessions");
        assert(" sessions="@ =~= seq![' '] + "sessions"@ + seq!['=']);
    }
    assert(opens(" blocks="@, "blocks"@) && "blocks"@.len() == 6) by {
        reveal_strlit(" blocks=");
        reveal_strlit("blocks");
        assert(" blocks="@ =~= seq![' '] + "blocks"@ + seq!['=']);
    }
    assert(opens(" order_source="@, "order_source"@) && "order_source"@.len() == 12) by {
        reveal_strlit(" order_source=");
        reveal_strlit("order_source");
        assert(" order_source="@ =~= seq![' '] + "order_source"@ + seq!['=']);
    }
    assert(opens(" schedule="@, "schedule"@) && "schedule"@.len() == 8) by {
        reveal_strlit(" schedule=");
        reveal_strlit("schedule");
        assert(" schedule="@ =~= seq![' '] + "schedule"@ + seq!['=']);
    }
    assert(opens(" seeds="@, "seeds"@) && "seeds"@.len() == 5) by {
        reveal_strlit(" seeds=");
        reveal_strlit("seeds");
        assert(" seeds="@ =~= seq![' '] + "seeds"@ + seq!['=']);
    }
    reveal_strlit("count");
    reveal_strlit("seeds");
    reveal_strlit("sessions");
    reveal_strlit("schedule");
    assert("count"@[0] != "seeds"@[0]);
    assert("sessions"@[1] != "schedule"@[1]);
}

/// A field more is the last one of its name.
proof fn lemma_last_more(
    text: Seq<char>,
    opening: Seq<char>,
    name: Seq<char>,
    value: Seq<char>,
    key: Seq<char>,
)
    requires
        opens(opening, name),
        is_solid(value),
        lacks(key, '='),
    ensures
        last_field_in(text + opening + value, key) == (if name == key {
            Some(value)
        } else {
            last_field_in(text, key)
        }),
{
    lemma_words_field(text, opening, name, value);
    lemma_field_key(name, value, key);
    let words = words_of(text);
    let word = field_text(name, value);
    assert(words.push(word).last() == word);
    assert(words.push(word).drop_last() =~= words);
}

proof fn lemma_first_add(words: Seq<Seq<char>>, more: Seq<Seq<char>>, key: Seq<char>)
    requires
        first_value(words, key) is Some,
    ensures
        first_value(words + more, key) == first_value(words, key),
    decreases words.len(),
{
    assert((words + more)[0] == words[0]);
    if behind(words[0], key + "="@) is None {
        assert((words + more).drop_first() =~= words.drop_first() + more);
        lemma_first_add(words.drop_first(), more, key);
    }
}

/// Parts without white space, joined without any, hold none.
proof fn lemma_joined_is_solid(parts: Seq<Seq<char>>, between: Seq<char>)
    requires
        forall|i: int| 0 <= i < parts.len() ==> is_solid(#[trigger] parts[i]),
        is_solid(between),
    ensures
        is_solid(joined(parts, between)),
    decreases parts.len(),
{
    if parts.len() >= 2 {
        let first = parts.drop_last();
        assert forall|i: int| 0 <= i < first.len() implies is_solid(#[trigger] first[i]) by {
            assert(first[i] == parts[i]);
        }
        lemma_joined_is_solid(first, between);
        let start = joined(first, between);
        let last = parts.last();
        assert(is_solid(parts[parts.len() - 1]));
        let text = joined(parts, between);
        assert forall|i: int| 0 <= i < text.len() implies !is_white(#[trigger] text[i]) by {
            if i < start.len() {
                assert(text[i] == start[i]);
            } else if i < start.len() + between.len() {
                assert(text[i] == between[i - start.len()]);
            } else {
                assert(text[i] == last[i - start.len() - between.len()]);
            }
        }
    } else if parts.len() == 1 {
        assert(is_solid(parts[0]));
    }
}

/// What the fields at the end of a plan hold is one word each.
proof fn lemma_solid_plan(design: Design)
    ensures
        is_solid(order_source_of(design)),
        is_solid(schedule_shown(design.schedule)),
        is_solid(seeds_shown(design.seeds)),
{
    reveal_strlit(",");
    reveal_strlit("random:");
    reveal_strlit("explicit");
    reveal_strlit("ABBA");
    reveal_strlit("BAAB");
    match design.order_seed {
        Some(seed) => {
            let source = order_source_of(design);
            lemma_decimal_is_solid(seed as nat);
            assert forall|i: int| 0 <= i < source.len() implies !is_white(#[trigger] source[i]) by {
                if i < 7 {
                    assert(source[i] == "random:"@[i]);
                } else {
                    assert(source[i] == decimal(seed as nat)[i - 7]);
                }
            }
        },
        None => {},
    }
    let orders = order_names(design.schedule);
    assert forall|i: int| 0 <= i < orders.len() implies is_solid(#[trigger] orders[i]) by {
        assert(orders[i] == design.schedule[i].name());
    }
    lemma_joined_is_solid(orders, ","@);
    let seeds = all_decimal(design.seeds);
    assert forall|i: int| 0 <= i < seeds.len() implies is_solid(#[trigger] seeds[i]) by {
        lemma_decimal_is_solid(design.seeds[i] as nat);
    }
    lemma_joined_is_solid(seeds, ","@);
}

/// A plan up to the arguments of the programs.
spec fn plan_start(design: Design) -> Seq<char> {
    "PLAN experiment="@ + experiment_of(design) + " scope="@ + scope_of(design) + " mode="@
        + design.measure
}

proof fn lemma_plan_start(design: Design, key: Seq<char>)
    requires
        is_solid(design.measure),
        key == "experiment"@ || key == "scope"@ || key == "mode"@,
    ensures
        field_in(plan_start(design), key) == (if key == "experiment"@ {
            Some(experiment_of(design))
        } else if key == "scope"@ {
            Some(scope_of(design))
        } else {
            Some(design.measure)
        }),
{
    lemma_openings();
    lemma_experiment();
    lemma_solid_names(design);
    assert("PLAN experiment="@ == "PLAN"@ + " experiment="@ && is_solid("PLAN"@) && lacks(
        "PLAN"@,
        '=',
    ) && "PLAN"@.len() > 0) by {
        reveal_strlit("PLAN");
        reveal_strlit(" experiment=");
        reveal_strlit("PLAN experiment=");
        assert("PLAN experiment="@ =~= "PLAN"@ + " experiment="@);
    }
    lemma_head("PLAN"@, "PLAN experiment="@, experiment_of(design), key);
    let a = "PLAN experiment="@ + experiment_of(design);
    lemma_field_more(a, " scope="@, "scope"@, scope_of(design), key);
    let b = a + " scope="@ + scope_of(design);
    lemma_field_more(b, " mode="@, "mode"@, design.measure, key);
}

proof fn lemma_transport_opens(design: Design)
    ensures
        transport_of(design).len() > 0,
        transport_of(design)[0] == ' ',
{
    reveal_strlit(" argument_transport=direct baseline_argv=");
    reveal_strlit(" subject_args=\"");
}

/// The values of the early fields of a plan.
proof fn lemma_plan_early(design: Design, key: Seq<char>)
    requires
        is_solid(design.measure),
        key == "experiment"@ || key == "scope"@ || key == "mode"@,
    ensures
        field_in(plan_of(design), key) == field_in(plan_start(design), key),
        field_in(plan_of(design), key) is Some,
{
    lemma_openings();
    lemma_experiment();
    lemma_plan_openings();
    lemma_solid_plan(design);
    lemma_plan_start(design, key);
    lemma_transport_opens(design);
    let a = plan_start(design);
    lemma_words_add(a, transport_of(design));
    lemma_first_add(words_of(a), words_of(transport_of(design)), key);
    let b = a + transport_of(design);
    let count = decimal(design.count as nat);
    let sessions = decimal(design.sessions as nat);
    let blocks = decimal(design.schedule.len());
    lemma_decimal_is_solid(design.count as nat);
    lemma_decimal_is_solid(design.sessions as nat);
    lemma_decimal_is_solid(design.schedule.len());
    lemma_found_stays(b, " count="@, "count"@, count, key);
    let c = b + " count="@ + count;
    lemma_found_stays(c, " sessions="@, "sessions"@, sessions, key);
    let d = c + " sessions="@ + sessions;
    lemma_found_stays(d, " blocks="@, "blocks"@, blocks, key);
    let e = d + " blocks="@ + blocks;
    let source = order_source_of(design);
    lemma_found_stays(e, " order_source="@, "order_source"@, source, key);
    let f = e + " order_source="@ + source;
    let schedule = schedule_shown(design.schedule);
    lemma_found_stays(f, " schedule="@, "schedule"@, schedule, key);
    let g = f + " schedule="@ + schedule;
    lemma_found_stays(g, " seeds="@, "seeds"@, seeds_shown(design.seeds), key);
}

/// The values of the late fields of a plan.
proof fn lemma_plan_late(design: Design)
    ensures
        last_field_in(plan_of(design), "count"@) == Some(decimal(design.count as nat)),
        last_field_in(plan_of(design), "sessions"@) == Some(decimal(design.sessions as nat)),
        last_field_in(plan_of(design), "blocks"@) == Some(decimal(design.schedule.len())),
        last_field_in(plan_of(design), "order_source"@) == Some(order_source_of(design)),
        last_field_in(plan_of(design), "schedule"@) == Some(schedule_shown(design.schedule)),
        last_field_in(plan_of(design), "seeds"@) == Some(seeds_shown(design.seeds)),
{
    lemma_plan_openings();
    lemma_late_field(design, "count"@);
    lemma_late_field(design, "sessions"@);
    lemma_late_field(design, "blocks"@);
    lemma_late_field(design, "order_source"@);
    lemma_late_field(design, "schedule"@);
    lemma_late_field(design, "seeds"@);
}

proof fn lemma_late_field(design: Design, key: Seq<char>)
    requires
        lacks(key, '='),
    ensures
        key == "count"@ ==> last_field_in(plan_of(design), key) == Some(
            decimal(design.count as nat),
        ),
        key == "sessions"@ ==> last_field_in(plan_of(design), key) == Some(
            decimal(design.sessions as nat),
        ),
        key == "blocks"@ ==> last_field_in(plan_of(design), key) == Some(
            decimal(design.schedule.len()),
        ),
        key == "order_source"@ ==> last_field_in(plan_of(design), key) == Some(
            order_source_of(design),
        ),
        key == "schedule"@ ==> last_field_in(plan_of(design), key) == Some(
            schedule_shown(design.schedule),
        ),
        key == "seeds"@ ==> last_field_in(plan_of(design), key) == Some(
            seeds_shown(design.seeds),
        ),
{
    lemma_plan_openings();
    lemma_solid_plan(design);
    let b = plan_start(design) + transport_of(design);
    let count = decimal(design.count as nat);
    let sessions = decimal(design.sessions as nat);
    let blocks = decimal(design.schedule.len());
    lemma_decimal_is_solid(design.count as nat);
    lemma_decimal_is_solid(design.sessions as nat);
    lemma_decimal_is_solid(design.schedule.len());
    lemma_last_more(b, " count="@, "count"@, count, key);
    let c = b + " count="@ + count;
    lemma_last_more(c, " sessions="@, "sessions"@, sessions, key);
    let d = c + " sessions="@ + sessions;
    lemma_last_more(d, " blocks="@, "blocks"@, blocks, key);
    let e = d + " blocks="@ + blocks;
    let source = order_source_of(design);
    lemma_last_more(e, " order_source="@, "order_source"@, source, key);
    let f = e + " order_source="@ + source;
    let schedule = schedule_shown(design.schedule);
    lemma_last_more(f, " schedule="@, "schedule"@, schedule, key);
    let g = f + " schedule="@ + schedule;
    lemma_last_more(g, " seeds="@, "seeds"@, seeds_shown(design.seeds), key);
}

proof fn lemma_plan_begins(design: Design)
    ensures
        begins_with(plan_of(design), "PLAN"@),
{
    reveal_strlit("PLAN");
    reveal_strlit("PLAN experiment=");
    let start = plan_start(design);
    assert(start.len() >= 4 && start.take(4) =~= "PLAN"@);
    assert(plan_of(design).take(4) =~= start.take(4));
}

/// The plan that a registered comparison announces is the one that the campaign registered,
/// whatever arguments the programs are given.
pub proof fn registered_plans_are_accepted(
    design: Design,
    registered: Registration,
    output: Seq<char>,
    before: Seq<Seq<char>>,
    after: Seq<Seq<char>>,
)
    requires
        is_registered(design, registered),
        is_solid(design.measure),
        lines_of(output) == before + seq![plan_of(design)] + after,
        forall|i: int| 0 <= i < before.len() ==> !begins_with(#[trigger] before[i], "PLAN"@),
    ensures
        plan_complaint(output, registered) is None,
{
    lemma_plan_begins(design);
    lemma_first_line(before, plan_of(design), after, "PLAN"@);
    lemma_openings();
    lemma_plan_start(design, "experiment"@);
    lemma_plan_start(design, "scope"@);
    lemma_plan_start(design, "mode"@);
    lemma_plan_early(design, "experiment"@);
    lemma_plan_early(design, "scope"@);
    lemma_plan_early(design, "mode"@);
    lemma_plan_late(design);
}

// ---------------------------------------------------------------------------
// What is accepted.
// ---------------------------------------------------------------------------

/// The value of a key in a line is that of its last word for the key.
pub proof fn last_values_are_last(words: Seq<Seq<char>>, key: Seq<char>, value: Seq<char>)
    ensures
        last_value(words, key) == Some(value) <==> exists|i: int|
            0 <= i < words.len() && #[trigger] words[i] == key + "="@ + value && forall|j: int|
                i < j < words.len() ==> !begins_with(#[trigger] words[j], key + "="@),
        last_value(words, key) is None <==> forall|j: int|
            0 <= j < words.len() ==> !begins_with(#[trigger] words[j], key + "="@),
    decreases words.len(),
{
    let prefix = key + "="@;
    if words.len() > 0 {
        let most = words.drop_last();
        let n = words.len() - 1;
        let word = words[n];
        last_values_are_last(most, key, value);
        if begins_with(word, prefix) {
            assert(word =~= word.take(prefix.len() as int) + word.skip(prefix.len() as int));
            if word == prefix + value {
                assert(word.skip(prefix.len() as int) =~= value);
            }
            if exists|i: int|
                0 <= i < words.len() && #[trigger] words[i] == prefix + value && forall|j: int|
                    i < j < words.len() ==> !begins_with(#[trigger] words[j], prefix) {
                let i = choose|i: int|
                    0 <= i < words.len() && #[trigger] words[i] == prefix + value && forall|j: int|
                        i < j < words.len() ==> !begins_with(#[trigger] words[j], prefix);
                assert(i == n);
            }
        } else {
            assert((prefix + value).take(prefix.len() as int) =~= prefix);
            if exists|i: int|
                0 <= i < words.len() && #[trigger] words[i] == prefix + value && forall|j: int|
                    i < j < words.len() ==> !begins_with(#[trigger] words[j], prefix) {
                let i = choose|i: int|
                    0 <= i < words.len() && #[trigger] words[i] == prefix + value && forall|j: int|
                        i < j < words.len() ==> !begins_with(#[trigger] words[j], prefix);
                assert(i < n);
                assert(most[i] == prefix + value);
                assert forall|j: int| i < j < most.len() implies !begins_with(
                    #[trigger] most[j],
                    prefix,
                ) by {
                    assert(most[j] == words[j]);
                }
            }
            if last_value(most, key) == Some(value) {
                let i = choose|i: int|
                    0 <= i < most.len() && #[trigger] most[i] == prefix + value && forall|j: int|
                        i < j < most.len() ==> !begins_with(#[trigger] most[j], prefix);
                assert(words[i] == prefix + value);
                assert forall|j: int| i < j < words.len() implies !begins_with(
                    #[trigger] words[j],
                    prefix,
                ) by {
                    if j < n {
                        assert(most[j] == words[j]);
                    }
                }
            }
            if last_value(most, key) is None {
                assert forall|j: int| 0 <= j < words.len() implies !begins_with(
                    #[trigger] words[j],
                    prefix,
                ) by {
                    if j < n {
                        assert(most[j] == words[j]);
                    }
                }
            }
            if forall|j: int| 0 <= j < words.len() ==> !begins_with(#[trigger] words[j], prefix) {
                assert forall|j: int| 0 <= j < most.len() implies !begins_with(
                    #[trigger] most[j],
                    prefix,
                ) by {
                    assert(most[j] == words[j]);
                }
            }
        }
    }
}

/// The announcement of a comparison is accepted if and only if its first line with a plan
/// echoes everything that was registered: the experiment, its scope and measure, the work, the
/// number of blocks, the order seed and the very schedule that comes of it, and the seeds.
pub proof fn accepted_plans_echo_everything(output: Seq<char>, registered: Registration)
    ensures
        plan_complaint(output, registered) is None <==> {
            let line = first_line(lines_of(output), "PLAN"@)->0;
            &&& first_line(lines_of(output), "PLAN"@) is Some
            &&& field_in(line, "experiment"@) == Some(registered.experiment@)
            &&& field_in(line, "scope"@) == Some(registered.scope@)
            &&& field_in(line, "mode"@) == Some(registered.measure@)
            &&& last_field_in(line, "count"@) == Some(decimal(registered.count as nat))
            &&& last_field_in(line, "sessions"@) == Some(decimal(registered.sessions as nat))
            &&& last_field_in(line, "blocks"@) == Some(decimal(registered.blocks as nat))
            &&& last_field_in(line, "order_source"@) == Some(
                "random:"@ + decimal(registered.order_seed as nat),
            )
            &&& last_field_in(line, "schedule"@) == Some(
                joined(
                    order_names(schedule_of(registered.blocks as nat, registered.order_seed)),
                    ","@,
                ),
            )
            &&& last_field_in(line, "seeds"@) == Some(joined(all_decimal(registered.seeds@), ","@))
        },
{
}

/// The result of a comparison is accepted if and only if its first line with a result is of
/// the experiment and the scope that were registered, and all registered blocks were planned
/// and are valid, and none is invalid.
pub proof fn accepted_results_are_complete(output: Seq<char>, registered: Registration)
    ensures
        result_complaint(output, registered) is None <==> {
            let line = first_line(lines_of(output), "RESULT"@)->0;
            &&& first_line(lines_of(output), "RESULT"@) is Some
            &&& field_in(line, "experiment"@) == Some(registered.experiment@)
            &&& field_in(line, "scope"@) == Some(registered.scope@)
            &&& field_in(line, "valid_blocks"@) == Some(decimal(registered.blocks as nat))
            &&& field_in(line, "planned_blocks"@) == Some(decimal(registered.blocks as nat))
            &&& field_in(line, "invalid_blocks"@) == Some("0"@)
        },
{
    reveal_strlit("0");
    assert(decimal(0) =~= "0"@);
}

/// The report of a turn says its block, its position, its side, the order of its block and its
/// seed.
pub proof fn reports_say_their_turn(turn: Turn)
    ensures
        ({
            let line = "OBS"@ + turn_text(turn);
            &&& field_in(line, "block"@) == Some(decimal(turn.block as nat))
            &&& field_in(line, "position"@) == Some(decimal(turn.position as nat))
            &&& field_in(line, "label"@) == Some(
                if turn.label == Label::Baseline {
                    "A"@
                } else {
                    "B"@
                },
            )
            &&& field_in(line, "order"@) == Some(
                if turn.order == BlockOrder::Abba {
                    "ABBA"@
                } else {
                    "BAAB"@
                },
            )
            &&& field_in(line, "seed"@) == Some(decimal(turn.seed as nat))
        }),
{
    lemma_turn_names();
    lemma_turn_value(turn, "block"@);
    lemma_turn_value(turn, "position"@);
    lemma_turn_value(turn, "label"@);
    lemma_turn_value(turn, "order"@);
    lemma_turn_value(turn, "seed"@);
}

#[verifier::spinoff_prover]
#[verifier::rlimit(40)]
proof fn lemma_turn_names()
    ensures
        " block="@ == seq![' '] + "block"@ + seq!['='],
        " position="@ == seq![' '] + "position"@ + seq!['='],
        " label="@ == seq![' '] + "label"@ + seq!['='],
        " order="@ == seq![' '] + "order"@ + seq!['='],
        " seed="@ == seq![' '] + "seed"@ + seq!['='],
        is_solid("block"@) && lacks("block"@, '='),
        is_solid("position"@) && lacks("position"@, '='),
        is_solid("label"@) && lacks("label"@, '='),
        is_solid("order"@) && lacks("order"@, '='),
        is_solid("seed"@) && lacks("seed"@, '='),
        "block"@ != "position"@ && "block"@ != "label"@ && "block"@ != "order"@ && "block"@
            != "seed"@,
        "position"@ != "label"@ && "position"@ != "order"@ && "position"@ != "seed"@,
        "label"@ != "order"@ && "label"@ != "seed"@ && "order"@ != "seed"@,
{
    reveal_strlit("block");
    reveal_strlit("position");
    reveal_strlit("label");
    reveal_strlit("order");
    reveal_strlit("seed");
    reveal_strlit(" block=");
    reveal_strlit(" position=");
    reveal_strlit(" label=");
    reveal_strlit(" order=");
    reveal_strlit(" seed=");
    assert(" block="@ =~= seq![' '] + "block"@ + seq!['=']);
    assert(" position="@ =~= seq![' '] + "position"@ + seq!['=']);
    assert(" label="@ =~= seq![' '] + "label"@ + seq!['=']);
    assert(" order="@ =~= seq![' '] + "order"@ + seq!['=']);
    assert(" seed="@ =~= seq![' '] + "seed"@ + seq!['=']);
    assert("block"@[0] == 'b' && "label"@[0] == 'l' && "order"@[0] == 'o');
    assert("position"@.len() == 8 && "seed"@.len() == 4 && "block"@.len() == 5);
    assert("label"@.len() == 5 && "order"@.len() == 5);
}

#[verifier::spinoff_prover]
#[verifier::rlimit(40)]
proof fn lemma_turn_value(turn: Turn, key: Seq<char>)
    requires
        lacks(key, '='),
    ensures
        ({
            let line = "OBS"@ + turn_text(turn);
            field_in(line, key) == (if key == "block"@ {
                Some(decimal(turn.block as nat))
            } else if key == "position"@ {
                Some(decimal(turn.position as nat))
            } else if key == "label"@ {
                Some(turn.label.letter())
            } else if key == "order"@ {
                Some(turn.order.name())
            } else if key == "seed"@ {
                Some(decimal(turn.seed as nat))
            } else {
                None
            })
        }),
{
    lemma_turn_names();
    lemma_turn_words(turn);
    let a = "OBS"@;
    lemma_word(a);
    lemma_no_field(a, key);
    assert(seq![a].drop_first() =~= Seq::empty());
    assert(first_value(seq![a].drop_first(), key) is None);
    assert(field_in(a, key) is None);
    lemma_field_more(a, " block="@, "block"@, decimal(turn.block as nat), key);
    let b = a + " block="@ + decimal(turn.block as nat);
    lemma_field_more(b, " position="@, "position"@, decimal(turn.position as nat), key);
    let c = b + " position="@ + decimal(turn.position as nat);
    lemma_field_more(c, " label="@, "label"@, turn.label.letter(), key);
    let d = c + " label="@ + turn.label.letter();
    lemma_field_more(d, " order="@, "order"@, turn.order.name(), key);
    let e = d + " order="@ + turn.order.name();
    lemma_field_more(e, " seed="@, "seed"@, decimal(turn.seed as nat), key);
    let f = e + " seed="@ + decimal(turn.seed as nat);
    assert(a + turn_text(turn) == f) by {
        lemma_turn_behind(turn, a);
    }
}

proof fn lemma_turn_words(turn: Turn)
    ensures
        is_solid("OBS"@) && "OBS"@.len() > 0 && lacks("OBS"@, '='),
        is_solid(turn.label.letter()),
        is_solid(turn.order.name()),
        is_solid(decimal(turn.block as nat)),
        is_solid(decimal(turn.position as nat)),
        is_solid(decimal(turn.seed as nat)),
{
    reveal_strlit("OBS");
    reveal_strlit("A");
    reveal_strlit("B");
    reveal_strlit("ABBA");
    reveal_strlit("BAAB");
    lemma_decimal_is_solid(turn.block as nat);
    lemma_decimal_is_solid(turn.position as nat);
    lemma_decimal_is_solid(turn.seed as nat);
}

proof fn lemma_turn_behind(turn: Turn, text: Seq<char>)
    ensures
        text + turn_text(turn) == text + " block="@ + decimal(turn.block as nat) + " position="@
            + decimal(turn.position as nat) + " label="@ + turn.label.letter() + " order="@
            + turn.order.name() + " seed="@ + decimal(turn.seed as nat),
{
    let a = " block="@ + decimal(turn.block as nat) + " position="@ + decimal(
        turn.position as nat,
    );
    assert(text + a =~= text + " block="@ + decimal(turn.block as nat) + " position="@ + decimal(
        turn.position as nat,
    ));
    let b = a + " label="@ + turn.label.letter();
    assert(text + b =~= text + a + " label="@ + turn.label.letter());
    let c = b + " order="@ + turn.order.name();
    assert(text + c =~= text + b + " order="@ + turn.order.name());
    let d = c + " seed="@ + decimal(turn.seed as nat);
    assert(text + d =~= text + c + " seed="@ + decimal(turn.seed as nat));
}

}
