//! Taking one candidate through its gates and comparisons.
use crate::config::{Config, Settings};
use crate::record::{
    are_distinct, gives_number, gives_once, lemma_field_lacks, lemma_named_value, named,
    push_field, values_are_given_once, values_of,
};
use crate::text::{
    begins_with, behind, decimal, field_text, has_prefix, join_texts, joined,
    joined_parts_are_split, lacks, lemma_decimal_lacks, lemma_joined_lacks, lines_of,
    list_of_numbers, number_in, number_is_read_back, number_text, numbers_list,
    one_line_is_read_back, parse_u64, quote, quoted, same_text, split_lines, split_on, split_text,
    split_words, strip_prefix, views, words_of,
};
use vstd::prelude::*;

verus! {

// ---------------------------------------------------------------------------
// Reading a result.
// ---------------------------------------------------------------------------

/// The value of the first word `key=value`.
pub open spec fn first_value(words: Seq<Seq<char>>, key: Seq<char>) -> Option<Seq<char>>
    decreases words.len(),
{
    if words.len() == 0 {
        None
    } else {
        match behind(words[0], key + "="@) {
            Some(value) => Some(value),
            None => first_value(words.drop_first(), key),
        }
    }
}

/// The value of `key` in a line of words.
pub open spec fn field_in(line: Seq<char>, key: Seq<char>) -> Option<Seq<char>> {
    first_value(words_of(line), key)
}

/// Extract `key=value` from a line of words.
pub fn field(line: &str, key: &str) -> (value: Option<String>)
    ensures
        match value {
            Some(v) => field_in(line@, key@) == Some(v@),
            None => field_in(line@, key@) is None,
        },
{
    let words = split_words(line);
    let prefix = key.to_owned().concat("=");
    let ghost whole = views(words@);
    let mut i: usize = 0;
    assert(whole.skip(0) =~= whole);
    while i < words.len()
        invariant
            i <= words.len(),
            whole == views(words@),
            whole == words_of(line@),
            prefix@ == key@ + "="@,
            first_value(whole, key@) == first_value(whole.skip(i as int), key@),
        decreases words.len() - i,
    {
        proof {
            let rest = whole.skip(i as int);
            assert(rest[0] == words@[i as int]@);
            assert(rest.drop_first() =~= whole.skip(i + 1));
        }
        match strip_prefix(words[i].as_str(), prefix.as_str()) {
            Some(value) => return Some(value.to_owned()),
            None => {},
        }
        i += 1;
    }
    None
}

/// What a comparison reported, as it was written.
#[derive(Debug, PartialEq, Eq)]
pub struct Verdict {
    pub lower_95_ratio: String,
    pub speedup_percent: Option<String>,
    pub evidence: String,
}

/// The first of `lines` that begins with `start`.
pub open spec fn first_line(lines: Seq<Seq<char>>, start: Seq<char>) -> Option<Seq<char>>
    decreases lines.len(),
{
    if lines.len() == 0 {
        None
    } else if begins_with(lines[0], start) {
        Some(lines[0])
    } else {
        first_line(lines.drop_first(), start)
    }
}

/// The verdict in the output of a comparison: the lower bound, the speedup if it is given,
/// and the evidence, which is empty if it is not.
pub open spec fn verdict_in(output: Seq<char>) -> Result<
    (Seq<char>, Option<Seq<char>>, Seq<char>),
    Seq<char>,
> {
    match first_line(lines_of(output), "RESULT"@) {
        None => Err("optikit-paired produced no RESULT line"@),
        Some(line) => match field_in(line, "lower_95_one_sided_ratio"@) {
            None => Err("RESULT missing lower_95_one_sided_ratio"@),
            Some(lower) => Ok(
                (
                    lower,
                    field_in(line, "speedup_percent"@),
                    match field_in(line, "evidence"@) {
                        Some(evidence) => evidence,
                        None => Seq::empty(),
                    },
                ),
            ),
        },
    }
}

/// Find the first line of a text that begins with `start`.
pub fn find_line(text: &str, start: &str) -> (line: Option<String>)
    ensures
        match line {
            Some(l) => first_line(lines_of(text@), start@) == Some(l@),
            None => first_line(lines_of(text@), start@) is None,
        },
{
    let lines = split_lines(text);
    let ghost whole = views(lines@);
    let mut i: usize = 0;
    assert(whole.skip(0) =~= whole);
    while i < lines.len()
        invariant
            i <= lines.len(),
            whole == views(lines@),
            whole == lines_of(text@),
            first_line(whole, start@) == first_line(whole.skip(i as int), start@),
        decreases lines.len() - i,
    {
        proof {
            let rest = whole.skip(i as int);
            assert(rest[0] == lines@[i as int]@);
            assert(rest.drop_first() =~= whole.skip(i + 1));
        }
        if has_prefix(lines[i].as_str(), start) {
            return Some(lines[i].as_str().to_owned());
        }
        i += 1;
    }
    None
}

/// Read the verdict of a comparison. Its numbers are left as they are written.
pub fn verdict_from(paired_stdout: &str) -> (verdict: Result<Verdict, String>)
    ensures
        match verdict {
            Ok(v) => verdict_in(paired_stdout@) == Ok::<
                (Seq<char>, Option<Seq<char>>, Seq<char>),
                Seq<char>,
            >(
                (
                    v.lower_95_ratio@,
                    match v.speedup_percent {
                        Some(text) => Some(text@),
                        None => None,
                    },
                    v.evidence@,
                ),
            ),
            Err(e) => verdict_in(paired_stdout@) == Err::<
                (Seq<char>, Option<Seq<char>>, Seq<char>),
                Seq<char>,
            >(e@),
        },
{
    let line = match find_line(paired_stdout, "RESULT") {
        Some(line) => line,
        None => return Err("optikit-paired produced no RESULT line".to_owned()),
    };
    let lower_95_ratio = match field(line.as_str(), "lower_95_one_sided_ratio") {
        Some(text) => text,
        None => return Err("RESULT missing lower_95_one_sided_ratio".to_owned()),
    };
    let speedup_percent = field(line.as_str(), "speedup_percent");
    let evidence = match field(line.as_str(), "evidence") {
        Some(text) => text,
        None => {
            let none = String::new();
            assert(none@ =~= Seq::empty());
            none
        },
    };
    Ok(Verdict { lower_95_ratio, speedup_percent, evidence })
}

// ---------------------------------------------------------------------------
// Gates.
// ---------------------------------------------------------------------------

/// The version that opens the record of a passed gate.
pub const GATE_RECORD_VERSION: &'static str = "optiwork-gate-v1";

/// What a gate found.
#[derive(Debug, PartialEq, Eq)]
pub enum Gate {
    /// The artifact does what it should.
    Equivalent,
    /// The artifact does something else.
    Mismatch,
    /// It did not work, so that nothing is known.
    Broken(String),
}

/// How the process of a gate ended.
pub enum GateExit {
    /// With a status.
    Status(i32),
    /// Without one; why.
    Stopped(String),
}

/// The lines of `output` that are gate records, field by field.
pub open spec fn gate_records(lines: Seq<Seq<char>>) -> Seq<Seq<Seq<char>>>
    decreases lines.len(),
{
    if lines.len() == 0 {
        Seq::empty()
    } else {
        let rest = gate_records(lines.drop_last());
        let fields = split_on(lines.last(), '\t');
        if fields[0] == GATE_RECORD_VERSION@ {
            rest.push(fields)
        } else {
            rest
        }
    }
}

/// Whether a gate record is evidence that `artifact` is equivalent on `workload`: it echoes
/// both, and says that something was checked.
pub open spec fn is_gate_evidence(
    fields: Seq<Seq<char>>,
    artifact: Seq<char>,
    workload: Seq<char>,
) -> bool {
    &&& values_of(fields, "status"@) == seq!["equivalent"@]
    &&& values_of(fields, "artifact_id"@) == seq![artifact]
    &&& values_of(fields, "workload_id"@) == seq![workload]
    &&& values_of(fields, "checked_units"@).len() == 1
    &&& number_in(values_of(fields, "checked_units"@)[0], u64::MAX as nat) matches Some(n) && n > 0
}

/// What is written where a gate succeeds without evidence.
pub open spec fn no_evidence() -> Seq<char> {
    "gate exited with status 0 but gave invalid success evidence"@
}

/// What a gate found, from how it ended and what it wrote. Only a status of zero with exactly
/// one fitting record is a pass, only a status of one is a mismatch.
pub open spec fn gate_passes(
    exit: GateExit,
    output: Seq<char>,
    artifact: Seq<char>,
    workload: Seq<char>,
) -> bool {
    let records = gate_records(lines_of(output));
    exit == GateExit::Status(0) && records.len() == 1 && is_gate_evidence(
        records[0],
        artifact,
        workload,
    )
}

fn count_value(fields: &Vec<String>, key: &str, value: &str) -> (only: bool)
    ensures
        only == (values_of(views(fields@), key@) == seq![value@]),
{
    match only_value(fields, key) {
        Some(text) => {
            let same = same_text(text.as_str(), value);
            proof {
                let values = values_of(views(fields@), key@);
                assert(values =~= seq![text@]);
                assert(values[0] == text@);
                assert(seq![value@][0] == value@);
            }
            same
        },
        None => {
            assert(seq![value@].len() == 1);
            false
        },
    }
}

fn only_value(fields: &Vec<String>, key: &str) -> (value: Option<String>)
    ensures
        match value {
            Some(v) => values_of(views(fields@), key@) == seq![v@],
            None => values_of(views(fields@), key@).len() != 1,
        },
{
    let prefix = key.to_owned().concat("=");
    let ghost whole = views(fields@);
    let mut value: Option<String> = None;
    let mut count: usize = 0;
    let mut i: usize = 0;
    while i < fields.len()
        invariant
            i <= fields.len(),
            count <= i,
            whole == views(fields@),
            prefix@ == key@ + "="@,
            count == values_of(whole.take(i as int), key@).len(),
            count == 0 ==> value is None,
            count > 0 ==> value is Some && values_of(whole.take(i as int), key@)[0] == (value->0)@,
        decreases fields.len() - i,
    {
        proof {
            let more = whole.take(i + 1);
            assert(more.drop_last() =~= whole.take(i as int));
            assert(more.last() == fields@[i as int]@);
        }
        match strip_prefix(fields[i].as_str(), prefix.as_str()) {
            Some(text) => {
                if count == 0 {
                    value = Some(text.to_owned());
                }
                count += 1;
            },
            None => {},
        }
        i += 1;
    }
    assert(whole.take(whole.len() as int) =~= whole);
    if count == 1 {
        proof {
            assert(values_of(whole, key@) =~= seq![(value->0)@]);
        }
        value
    } else {
        None
    }
}

fn is_evidence(fields: &Vec<String>, artifact: &str, workload: &str) -> (yes: bool)
    ensures
        yes == is_gate_evidence(views(fields@), artifact@, workload@),
{
    if !count_value(fields, "status", "equivalent") || !count_value(fields, "artifact_id", artifact)
        || !count_value(fields, "workload_id", workload) {
        return false;
    }
    match only_value(fields, "checked_units") {
        Some(text) => match parse_u64(text.as_str()) {
            Some(n) => n > 0,
            None => false,
        },
        None => false,
    }
}

/// Whether `output` holds exactly one gate record, and it is evidence.
fn has_evidence(output: &str, artifact: &str, workload: &str) -> (yes: bool)
    ensures
        yes == gate_passes(GateExit::Status(0), output@, artifact@, workload@),
{
    let lines = split_lines(output);
    let ghost whole = views(lines@);
    let mut count: usize = 0;
    let mut good: bool = false;
    let mut i: usize = 0;
    while i < lines.len()
        invariant
            i <= lines.len(),
            count <= i,
            whole == views(lines@),
            count == gate_records(whole.take(i as int)).len(),
            count == 1 ==> good == is_gate_evidence(
                gate_records(whole.take(i as int))[0],
                artifact@,
                workload@,
            ),
        decreases lines.len() - i,
    {
        proof {
            let more = whole.take(i + 1);
            assert(more.drop_last() =~= whole.take(i as int));
            assert(more.last() == lines@[i as int]@);
        }
        let fields = split_text(lines[i].as_str(), '\t');
        assert(views(fields@)[0] == fields@[0]@);
        if same_text(fields[0].as_str(), GATE_RECORD_VERSION) {
            count += 1;
            good = is_evidence(&fields, artifact, workload);
        }
        i += 1;
    }
    assert(whole.take(whole.len() as int) =~= whole);
    count == 1 && good
}

/// What a gate found, from how its process ended and what it wrote: whether the artifact is
/// equivalent, or nothing if that cannot be told.
pub open spec fn judged(
    exit: GateExit,
    output: Seq<char>,
    artifact: Seq<char>,
    workload: Seq<char>,
) -> Option<bool> {
    if gate_passes(exit, output, artifact, workload) {
        Some(true)
    } else if exit == GateExit::Status(1) {
        Some(false)
    } else {
        None
    }
}

/// Judge a gate from how its process ended and what it wrote.
pub fn judge_gate(exit: &GateExit, output: &str, artifact: &str, workload: &str) -> (gate: Gate)
    ensures
        judged(*exit, output@, artifact@, workload@) == (match gate {
            Gate::Equivalent => Some(true),
            Gate::Mismatch => Some(false),
            Gate::Broken(_) => None,
        }),
        gate is Equivalent <==> gate_passes(*exit, output@, artifact@, workload@),
        gate is Mismatch <==> *exit == GateExit::Status(1),
        gate matches Gate::Broken(why) ==> why@ == match *exit {
            GateExit::Status(status) => if status == 0 {
                no_evidence()
            } else {
                "gate failed with an operational status"@
            },
            GateExit::Stopped(reason) => "gate did not finish: "@ + reason@,
        },
{
    match exit {
        GateExit::Status(status) => {
            if *status == 0 {
                if has_evidence(output, artifact, workload) {
                    Gate::Equivalent
                } else {
                    Gate::Broken(
                        "gate exited with status 0 but gave invalid success evidence".to_owned(),
                    )
                }
            } else if *status == 1 {
                Gate::Mismatch
            } else {
                Gate::Broken("gate failed with an operational status".to_owned())
            }
        },
        GateExit::Stopped(reason) => Gate::Broken(
            "gate did not finish: ".to_owned().concat(reason.as_str()),
        ),
    }
}

/// How a gate is shown.
pub open spec fn gate_name(gate: Gate) -> Seq<char> {
    match gate {
        Gate::Equivalent => "PASS"@,
        Gate::Mismatch => "FAIL"@,
        Gate::Broken(_) => "ERROR"@,
    }
}

pub fn gate_label(gate: &Gate) -> (label: &'static str)
    ensures
        label@ == gate_name(*gate),
{
    match gate {
        Gate::Equivalent => "PASS",
        Gate::Mismatch => "FAIL",
        Gate::Broken(_) => "ERROR",
    }
}

/// The names of the fields of a gate record, in order.
pub open spec fn gate_names() -> Seq<Seq<char>> {
    seq!["status"@, "artifact_id"@, "workload_id"@, "checked_units"@]
}

/// The record of a gate that passes, without the line break.
pub open spec fn gate_text(artifact: Seq<char>, workload: Seq<char>, units: nat) -> Seq<char> {
    joined(
        seq![GATE_RECORD_VERSION@] + named(
            gate_names(),
            seq!["equivalent"@, artifact, workload, decimal(units)],
        ),
        seq!['\t'],
    )
}

/// Write the record of a gate that passes, without the line break.
pub fn gate_record(artifact: &str, workload: &str, units: u64) -> (line: String)
    ensures
        line@ == gate_text(artifact@, workload@, units as nat),
{
    let mut fields: Vec<String> = Vec::new();
    fields.push(GATE_RECORD_VERSION.to_owned());
    assert(views(fields@) =~= seq![GATE_RECORD_VERSION@]);
    push_field(&mut fields, "status", "equivalent");
    push_field(&mut fields, "artifact_id", artifact);
    push_field(&mut fields, "workload_id", workload);
    push_field(&mut fields, "checked_units", number_text(units as u128).as_str());
    proof {
        reveal_strlit("\t");
        assert("\t"@ =~= seq!['\t']);
        assert(views(fields@) =~= seq![GATE_RECORD_VERSION@] + named(
            gate_names(),
            seq!["equivalent"@, artifact@, workload@, decimal(units as nat)],
        ));
    }
    join_texts(&fields, "\t")
}

proof fn lemma_gate_names()
    ensures
        are_distinct(GATE_RECORD_VERSION@, gate_names()),
        forall|i: int|
            0 <= i < gate_names().len() ==> lacks(#[trigger] gate_names()[i], '\t') && lacks(
                gate_names()[i],
                '\n',
            ),
        lacks(GATE_RECORD_VERSION@, '\t') && lacks(GATE_RECORD_VERSION@, '\n'),
        lacks("equivalent"@, '\t') && lacks("equivalent"@, '\n'),
{
    reveal_strlit("status");
    reveal_strlit("artifact_id");
    reveal_strlit("workload_id");
    reveal_strlit("checked_units");
    reveal_strlit("equivalent");
    reveal_strlit("optiwork-gate-v1");
    let names = gate_names();
    assert("status"@.len() == 6 && "status"@[0] == 's');
    assert("artifact_id"@.len() == 11 && "artifact_id"@[0] == 'a');
    assert("workload_id"@.len() == 11 && "workload_id"@[0] == 'w');
    assert("checked_units"@.len() == 13 && "checked_units"@[0] == 'c');
    assert forall|i: int, j: int| 0 <= i < j < names.len() implies #[trigger] names[i]
        != #[trigger] names[j] by {
        assert(names[i][0] != names[j][0]);
    }
}

/// The record that a subject writes where it is equivalent is the evidence that its gate
/// asks for.
pub proof fn gate_record_is_evidence(artifact: Seq<char>, workload: Seq<char>, units: nat)
    requires
        lacks(artifact, '\t') && lacks(artifact, '\n'),
        lacks(workload, '\t') && lacks(workload, '\n'),
        0 < units <= u64::MAX,
    ensures
        gate_passes(
            GateExit::Status(0),
            gate_text(artifact, workload, units) + seq!['\n'],
            artifact,
            workload,
        ),
{
    let version = GATE_RECORD_VERSION@;
    let names = gate_names();
    let values = seq!["equivalent"@, artifact, workload, decimal(units)];
    let fields = seq![version] + named(names, values);
    let line = gate_text(artifact, workload, units);
    lemma_gate_names();
    lemma_decimal_lacks(units, '\t');
    lemma_decimal_lacks(units, '\n');
    lemma_decimal_lacks(units, '\r');
    assert forall|i: int| 0 <= i < fields.len() implies lacks(#[trigger] fields[i], '\t') && lacks(
        fields[i],
        '\n',
    ) by {
        if i > 0 {
            assert(fields[i] == field_text(names[i - 1], values[i - 1]));
            assert(lacks(names[i - 1], '\t') && lacks(names[i - 1], '\n'));
            lemma_field_lacks(names[i - 1], values[i - 1], '\t');
            lemma_field_lacks(names[i - 1], values[i - 1], '\n');
        }
    }
    joined_parts_are_split(fields, '\t');
    lemma_joined_lacks(fields, seq!['\t'], '\n');
    assert(line.last() != '\r' && line.len() > 0) by {
        let last = fields.last();
        assert(last == field_text(names[3], values[3]));
        assert(last.last() == decimal(units).last());
        assert(line.last() == last.last());
        assert(decimal(units)[decimal(units).len() - 1] != '\r');
    }
    one_line_is_read_back(line);
    let lines = seq![line];
    assert(lines.drop_last() =~= Seq::empty());
    assert(gate_records(lines.drop_last()) =~= Seq::empty());
    assert(lines.last() == line);
    assert(fields[0] == version);
    assert(gate_records(lines) =~= seq![fields]);
    lemma_named_value(version, names, values, 0);
    lemma_named_value(version, names, values, 1);
    lemma_named_value(version, names, values, 2);
    lemma_named_value(version, names, values, 3);
    number_is_read_back(units, u64::MAX as nat);
}

// ---------------------------------------------------------------------------
// The decision.
// ---------------------------------------------------------------------------

/// What became of a candidate.
#[derive(Clone, Copy, Debug, PartialEq, Eq, Structural)]
pub enum Outcome {
    /// It is faster on every workload.
    Promoted,
    /// It is not faster on some workload.
    NotPromoted,
    /// It does something else on some workload.
    GateFailed,
    /// Some gate or comparison did not work.
    OperationalFailure,
}

/// The outcome of a candidate, from its gate on each workload and, where all gates pass, from
/// its comparison on each: whether its lower bound clears the threshold, or nothing if the
/// comparison did not work.
pub open spec fn outcome_of(gates: Seq<Gate>, clears: Seq<Option<bool>>) -> Outcome {
    if exists|i: int| 0 <= i < gates.len() && #[trigger] gates[i] is Broken {
        Outcome::OperationalFailure
    } else if exists|i: int| 0 <= i < gates.len() && #[trigger] gates[i] is Mismatch {
        Outcome::GateFailed
    } else if exists|i: int| 0 <= i < clears.len() && #[trigger] clears[i] is None {
        Outcome::OperationalFailure
    } else if forall|i: int| 0 <= i < clears.len() ==> #[trigger] clears[i] == Some(true) {
        Outcome::Promoted
    } else {
        Outcome::NotPromoted
    }
}

/// Decide on a candidate.
pub fn decide(gates: &Vec<Gate>, clears: &Vec<Option<bool>>) -> (outcome: Outcome)
    ensures
        outcome == outcome_of(gates@, clears@),
{
    let mut mismatch: bool = false;
    let mut i: usize = 0;
    while i < gates.len()
        invariant
            i <= gates.len(),
            forall|j: int| 0 <= j < i ==> !(#[trigger] gates@[j] is Broken),
            mismatch == exists|j: int| 0 <= j < i && #[trigger] gates@[j] is Mismatch,
        decreases gates.len() - i,
    {
        match &gates[i] {
            Gate::Equivalent => {},
            Gate::Mismatch => {
                mismatch = true;
                assert(gates@[i as int] is Mismatch);
            },
            Gate::Broken(_) => {
                assert(gates@[i as int] is Broken);
                return Outcome::OperationalFailure;
            },
        }
        i += 1;
    }
    if mismatch {
        return Outcome::GateFailed;
    }
    let mut all: bool = true;
    let mut k: usize = 0;
    while k < clears.len()
        invariant
            k <= clears.len(),
            forall|j: int| 0 <= j < gates.len() ==> !(#[trigger] gates@[j] is Broken),
            !(exists|j: int| 0 <= j < gates.len() && #[trigger] gates@[j] is Mismatch),
            forall|j: int| 0 <= j < k ==> !(#[trigger] clears@[j] is None),
            all == forall|j: int| 0 <= j < k ==> #[trigger] clears@[j] == Some(true),
        decreases clears.len() - k,
    {
        match clears[k] {
            None => {
                assert(clears@[k as int] is None);
                return Outcome::OperationalFailure;
            },
            Some(clear) => {
                if !clear {
                    assert(clears@[k as int] == Some(false));
                    all = false;
                }
            },
        }
        k += 1;
    }
    if all {
        Outcome::Promoted
    } else {
        Outcome::NotPromoted
    }
}

/// A candidate is promoted if and only if every gate passes and every comparison clears the
/// threshold. A gate or a comparison that did not work is never an outcome of the candidate.
pub proof fn promotion_is_earned(gates: Seq<Gate>, clears: Seq<Option<bool>>)
    ensures
        outcome_of(gates, clears) == Outcome::Promoted <==> {
            &&& forall|i: int| 0 <= i < gates.len() ==> #[trigger] gates[i] is Equivalent
            &&& forall|i: int| 0 <= i < clears.len() ==> #[trigger] clears[i] == Some(true)
        },
        (exists|i: int| 0 <= i < gates.len() && #[trigger] gates[i] is Broken) ==> outcome_of(
            gates,
            clears,
        ) == Outcome::OperationalFailure,
        outcome_of(gates, clears) == Outcome::NotPromoted ==> forall|i: int|
            0 <= i < clears.len() ==> #[trigger] clears[i] is Some,
{
    if outcome_of(gates, clears) == Outcome::Promoted {
        assert forall|i: int| 0 <= i < gates.len() implies #[trigger] gates[i] is Equivalent by {
            assert(!(gates[i] is Broken));
            assert(!(gates[i] is Mismatch));
        }
    }
}

// ---------------------------------------------------------------------------
// Commands.
// ---------------------------------------------------------------------------

/// The path of `name` in the directory `dir`.
pub open spec fn path_in(dir: Seq<char>, name: Seq<char>) -> Seq<char> {
    if dir.len() > 0 && dir.last() == '/' {
        dir + name
    } else {
        dir + "/"@ + name
    }
}

fn join_path(dir: &str, name: &str) -> (path: String)
    ensures
        path@ == path_in(dir@, name@),
{
    let size: usize = dir.unicode_len();
    if size > 0 && dir.get_char(size - 1) == '/' {
        dir.to_owned().concat(name)
    } else {
        dir.to_owned().concat("/").concat(name)
    }
}

/// The arguments of a gate, of `artifact` on `workload`. What is timed is what is checked;
/// the names are echoed as evidence.
pub open spec fn gate_command(
    settings: Settings,
    artifact: Seq<char>,
    workload: Seq<char>,
) -> Seq<Seq<char>> {
    seq![
        "--impl"@,
        artifact,
        "--corpus"@,
        path_in(settings.corpora_dir, workload + ".bin"@),
        "--check"@,
        path_in(settings.corpora_dir, workload + ".golden"@),
        "--optiwork-gate-artifact-id"@,
        artifact,
        "--optiwork-gate-workload-id"@,
        workload,
    ]
}

/// Write the arguments of a gate.
pub fn gate_args(config: &Config, artifact: &str, workload: &str) -> (args: Vec<String>)
    ensures
        views(args@) == gate_command(config@, artifact@, workload@),
{
    let dir = config.corpora_dir.as_str();
    let mut args: Vec<String> = Vec::new();
    args.push("--impl".to_owned());
    args.push(artifact.to_owned());
    args.push("--corpus".to_owned());
    args.push(join_path(dir, workload.to_owned().concat(".bin").as_str()));
    args.push("--check".to_owned());
    args.push(join_path(dir, workload.to_owned().concat(".golden").as_str()));
    args.push("--optiwork-gate-artifact-id".to_owned());
    args.push(artifact.to_owned());
    args.push("--optiwork-gate-workload-id".to_owned());
    args.push(workload.to_owned());
    assert(views(args@) =~= gate_command(config@, artifact@, workload@));
    args
}

/// The seeds as options.
pub open spec fn seed_options(seeds: Seq<u64>) -> Seq<Seq<char>>
    decreases seeds.len(),
{
    if seeds.len() == 0 {
        Seq::empty()
    } else {
        seed_options(seeds.drop_last()) + seq!["--seed"@, decimal(seeds.last() as nat)]
    }
}

/// The arguments of one side, each as a value of `option`.
pub open spec fn side_options(
    option: Seq<char>,
    artifact: Seq<char>,
    corpus: Seq<char>,
) -> Seq<Seq<char>> {
    seq![option, "--impl"@, option, artifact, option, "--corpus"@, option, corpus]
}

/// The arguments of the comparison on `workload`.
pub open spec fn paired_command(
    settings: Settings,
    workload: Seq<char>,
    count: u64,
    sessions: u64,
    blocks: usize,
) -> Seq<Seq<char>> {
    let corpus = path_in(settings.corpora_dir, workload + ".bin"@);
    let options = seq![
        "--baseline"@,
        settings.bench,
        "--candidate"@,
        settings.bench,
        "--measure"@,
        "scan"@,
        "--direct-args"@,
    ] + side_options("--baseline-arg"@, settings.baseline_impl, corpus) + side_options(
        "--candidate-arg"@,
        settings.candidate_impl,
        corpus,
    ) + seq![
        "--count"@,
        decimal(count as nat),
        "--sessions"@,
        decimal(sessions as nat),
        "--blocks"@,
        decimal(blocks as nat),
        "--order-seed"@,
        decimal(settings.order_seed as nat),
    ] + seed_options(settings.seeds);
    if settings.held_out {
        options.push("--held-out"@)
    } else {
        options
    }
}

fn push_side(args: &mut Vec<String>, option: &str, artifact: &str, corpus: &str)
    ensures
        views(final(args)@) == views(old(args)@) + side_options(option@, artifact@, corpus@),
{
    let ghost before = views(args@);
    args.push(option.to_owned());
    args.push("--impl".to_owned());
    args.push(option.to_owned());
    args.push(artifact.to_owned());
    args.push(option.to_owned());
    args.push("--corpus".to_owned());
    args.push(option.to_owned());
    args.push(corpus.to_owned());
    assert(views(args@) =~= before + side_options(option@, artifact@, corpus@));
}

fn push_seeds(args: &mut Vec<String>, seeds: &Vec<u64>)
    ensures
        views(final(args)@) == views(old(args)@) + seed_options(seeds@),
{
    let ghost before = views(args@);
    let mut i: usize = 0;
    assert(before + seed_options(seeds@.take(0)) =~= before);
    while i < seeds.len()
        invariant
            i <= seeds.len(),
            views(args@) == before + seed_options(seeds@.take(i as int)),
        decreases seeds.len() - i,
    {
        let ghost was = views(args@);
        let value = number_text(seeds[i] as u128);
        args.push("--seed".to_owned());
        args.push(value);
        proof {
            let more = seeds@.take(i + 1);
            assert(more.drop_last() =~= seeds@.take(i as int));
            assert(views(args@) =~= was + seq!["--seed"@, value@]);
            assert(was + seq!["--seed"@, value@] =~= before + (seed_options(seeds@.take(i as int))
                + seq!["--seed"@, value@]));
        }
        i += 1;
    }
    assert(seeds@.take(seeds.len() as int) =~= seeds@);
}

/// Write the arguments of a comparison.
pub fn paired_args(
    config: &Config,
    workload: &str,
    count: u64,
    sessions: u64,
    blocks: usize,
) -> (args: Vec<String>)
    ensures
        views(args@) == paired_command(config@, workload@, count, sessions, blocks),
{
    let corpus = join_path(
        config.corpora_dir.as_str(),
        workload.to_owned().concat(".bin").as_str(),
    );
    let mut args: Vec<String> = Vec::new();
    args.push("--baseline".to_owned());
    args.push(config.bench.as_str().to_owned());
    args.push("--candidate".to_owned());
    args.push(config.bench.as_str().to_owned());
    args.push("--measure".to_owned());
    args.push("scan".to_owned());
    args.push("--direct-args".to_owned());
    assert(views(args@) =~= seq![
        "--baseline"@,
        config.bench@,
        "--candidate"@,
        config.bench@,
        "--measure"@,
        "scan"@,
        "--direct-args"@,
    ]);
    push_side(&mut args, "--baseline-arg", config.baseline_impl.as_str(), corpus.as_str());
    push_side(&mut args, "--candidate-arg", config.candidate_impl.as_str(), corpus.as_str());
    let ghost sides = views(args@);
    args.push("--count".to_owned());
    args.push(number_text(count as u128));
    args.push("--sessions".to_owned());
    args.push(number_text(sessions as u128));
    args.push("--blocks".to_owned());
    args.push(number_text(blocks as u128));
    args.push("--order-seed".to_owned());
    args.push(number_text(config.order_seed as u128));
    assert(views(args@) =~= sides + seq![
        "--count"@,
        decimal(count as nat),
        "--sessions"@,
        decimal(sessions as nat),
        "--blocks"@,
        decimal(blocks as nat),
        "--order-seed"@,
        decimal(config.order_seed as nat),
    ]);
    push_seeds(&mut args, &config.seeds);
    if config.held_out {
        let ghost was = views(args@);
        args.push("--held-out".to_owned());
        assert(views(args@) =~= was.push("--held-out"@));
    }
    args
}

// ---------------------------------------------------------------------------
// What is logged.
// ---------------------------------------------------------------------------

/// What a campaign may be used for.
pub open spec fn campaign_scope(settings: Settings) -> Seq<char> {
    if settings.held_out {
        "held_out_confirmation"@
    } else {
        "exploratory_per_candidate"@
    }
}

fn scope(config: &Config) -> (name: &'static str)
    ensures
        name@ == campaign_scope(config@),
{
    if config.held_out {
        "held_out_confirmation"
    } else {
        "exploratory_per_candidate"
    }
}

/// The work of one workload.
pub open spec fn work_text(count: u64, sessions: u64, blocks: usize) -> Seq<char> {
    "(count="@ + decimal(count as nat) + " sessions="@ + decimal(sessions as nat) + " blocks="@
        + decimal(blocks as nat) + ")"@
}

fn show_work(count: u64, sessions: u64, blocks: usize) -> (text: String)
    ensures
        text@ == work_text(count, sessions, blocks),
{
    "(count=".to_owned().concat(number_text(count as u128).as_str()).concat(" sessions=").concat(
        number_text(sessions as u128).as_str(),
    ).concat(" blocks=").concat(number_text(blocks as u128).as_str()).concat(")")
}

/// The plan as it is logged before anything is run.
pub open spec fn header_of(settings: Settings, commit: Seq<char>, vcpus: Seq<char>) -> Seq<char> {
    "\n## candidate: "@ + settings.id + " ("@ + settings.candidate_impl + ")\nscope: "@
        + campaign_scope(settings) + "\nbaseline_impl: "@ + settings.baseline_impl
        + "\nhypothesis: "@ + settings.hypothesis + "\ncommit: "@ + commit + "  vcpus: "@ + vcpus
        + "\nPLAN: measure=scan main"@ + work_text(
        settings.main_count,
        settings.main_sessions,
        settings.main_blocks,
    ) + " pathological"@ + work_text(
        settings.path_count,
        settings.path_sessions,
        settings.path_blocks,
    ) + " order_seed="@ + decimal(settings.order_seed as nat) + " seeds="@ + list_of_numbers(
        settings.seeds,
    ) + "\n"@
}

/// Write the plan.
pub fn header(config: &Config, commit: &str, vcpus: &str) -> (text: String)
    ensures
        text@ == header_of(config@, commit@, vcpus@),
{
    "\n## candidate: ".to_owned().concat(config.id.as_str()).concat(" (").concat(
        config.candidate_impl.as_str(),
    ).concat(")\nscope: ").concat(scope(config)).concat("\nbaseline_impl: ").concat(
        config.baseline_impl.as_str(),
    ).concat("\nhypothesis: ").concat(config.hypothesis.as_str()).concat("\ncommit: ").concat(
        commit,
    ).concat("  vcpus: ").concat(vcpus).concat("\nPLAN: measure=scan main").concat(
        show_work(config.main_count, config.main_sessions, config.main_blocks).as_str(),
    ).concat(" pathological").concat(
        show_work(config.path_count, config.path_sessions, config.path_blocks).as_str(),
    ).concat(" order_seed=").concat(number_text(config.order_seed as u128).as_str()).concat(
        " seeds=",
    ).concat(numbers_list(&config.seeds).as_str()).concat("\n")
}

/// A comparison that worked: its numbers, written out, and whether its lower bound is above
/// one.
pub struct Compared {
    pub lower_95_ratio: String,
    pub speedup_percent: String,
    pub evidence: String,
    pub faster: bool,
}

/// How a comparison is logged.
pub open spec fn compared_text(workload: Seq<char>, compared: Compared) -> Seq<char> {
    workload + ": lower_95_ratio="@ + compared.lower_95_ratio@ + " speedup_percent="@
        + compared.speedup_percent@ + " evidence="@ + compared.evidence@ + "\n"@
}

/// `true` or `false`.
pub open spec fn bool_text(value: bool) -> Seq<char> {
    if value {
        "true"@
    } else {
        "false"@
    }
}

/// How the failure of a comparison is logged.
pub open spec fn failure_text(result: Result<Compared, String>) -> Seq<char> {
    match result {
        Ok(_) => "None"@,
        Err(e) => "Some("@ + quoted(e@) + ")"@,
    }
}

/// What is logged about the gates.
pub open spec fn gates_text(main: Gate, path: Gate) -> Seq<char> {
    "gate: main="@ + gate_name(main) + " pathological="@ + gate_name(path) + "\n"@
}

/// What is logged where a gate does not pass.
pub open spec fn stopped_text(main: Gate, path: Gate) -> Seq<char> {
    if main is Broken || path is Broken {
        gates_text(main, path) + "Decision: none (operational failure of the equivalence gate)\n"@
    } else {
        gates_text(main, path) + "Decision: rejected (equivalence gate)\n"@
    }
}

/// What is logged about two comparisons.
pub open spec fn decision_text(
    main: Result<Compared, String>,
    path: Result<Compared, String>,
) -> Seq<char> {
    match (main, path) {
        (Ok(m), Ok(p)) => compared_text("main"@, m) + compared_text("pathological"@, p)
            + "Decision: "@ + (if m.faster && p.faster {
            "promoted"@
        } else {
            "rejected"@
        }) + " (main_95>1="@ + bool_text(m.faster) + " pathological_95>1="@ + bool_text(p.faster)
            + ")\n"@,
        _ => "Decision: none (paired run failed: main_err="@ + failure_text(main) + " path_err="@
            + failure_text(path) + ")\n"@,
    }
}

fn show_compared(workload: &str, compared: &Compared) -> (text: String)
    ensures
        text@ == compared_text(workload@, *compared),
{
    workload.to_owned().concat(": lower_95_ratio=").concat(compared.lower_95_ratio.as_str()).concat(
        " speedup_percent=",
    ).concat(compared.speedup_percent.as_str()).concat(" evidence=").concat(
        compared.evidence.as_str(),
    ).concat("\n")
}

fn show_bool(value: bool) -> (text: &'static str)
    ensures
        text@ == bool_text(value),
{
    if value {
        "true"
    } else {
        "false"
    }
}

fn show_failure(result: &Result<Compared, String>) -> (text: String)
    ensures
        text@ == failure_text(*result),
{
    match result {
        Ok(_) => "None".to_owned(),
        Err(e) => "Some(".to_owned().concat(quote(e.as_str()).as_str()).concat(")"),
    }
}

/// Log gates of which one does not pass.
pub fn stopped(main: &Gate, path: &Gate) -> (text: String)
    ensures
        text@ == stopped_text(*main, *path),
{
    let gates = "gate: main=".to_owned().concat(gate_label(main)).concat(" pathological=").concat(
        gate_label(path),
    ).concat("\n");
    let broken: bool = match main {
        Gate::Broken(_) => true,
        _ => match path {
            Gate::Broken(_) => true,
            _ => false,
        },
    };
    if broken {
        gates.concat("Decision: none (operational failure of the equivalence gate)\n")
    } else {
        gates.concat("Decision: rejected (equivalence gate)\n")
    }
}

/// Log two comparisons and the decision.
pub fn decision(main: &Result<Compared, String>, path: &Result<Compared, String>) -> (text: String)
    ensures
        text@ == decision_text(*main, *path),
{
    match (main, path) {
        (Ok(m), Ok(p)) => show_compared("main", m).concat(
            show_compared("pathological", p).as_str(),
        ).concat("Decision: ").concat(
            if m.faster && p.faster {
                "promoted"
            } else {
                "rejected"
            },
        ).concat(" (main_95>1=").concat(show_bool(m.faster)).concat(" pathological_95>1=").concat(
            show_bool(p.faster),
        ).concat(")\n"),
        _ => "Decision: none (paired run failed: main_err=".to_owned().concat(
            show_failure(main).as_str(),
        ).concat(" path_err=").concat(show_failure(path).as_str()).concat(")\n"),
    }
}

// ---------------------------------------------------------------------------
// What a log says of the decision.
// ---------------------------------------------------------------------------

/// Whether some line of `text` begins with `Decision: ` and `word`.
pub open spec fn says_decision(text: Seq<char>, word: Seq<char>) -> bool {
    exists|i: int| #[trigger] says_decision_at(text, word, i)
}

/// Whether the line at `i` begins with `Decision: ` and `word`.
pub open spec fn says_decision_at(text: Seq<char>, word: Seq<char>, i: int) -> bool {
    let start = "Decision: "@ + word;
    &&& 0 <= i
    &&& i + start.len() <= text.len()
    &&& i > 0 ==> text[i - 1] == '\n'
    &&& text.subrange(i, i + start.len()) == start
}

/// Whether a comparison is logged on one line.
pub open spec fn is_on_one_line(result: Result<Compared, String>) -> bool {
    match result {
        Ok(c) => {
            &&& lacks(c.lower_95_ratio@, '\n')
            &&& lacks(c.speedup_percent@, '\n')
            &&& lacks(c.evidence@, '\n')
        },
        Err(e) => lacks(quoted(e@), '\n'),
    }
}

/// What is decided where both comparisons worked.
#[verifier::spinoff_prover]
#[verifier::rlimit(40)]
proof fn lemma_decided(m: Compared, p: Compared)
    requires
        is_on_one_line(Ok(m)),
        is_on_one_line(Ok(p)),
    ensures
        ({
            let text = decision_text(Ok(m), Ok(p));
            &&& says_decision(text, "promoted"@) <==> m.faster && p.faster
            &&& says_decision(text, "rejected"@) <==> !(m.faster && p.faster)
            &&& !says_decision(text, "none"@)
        }),
{
    let text = decision_text(Ok(m), Ok(p));
    let a = compared_text("main"@, m);
    let b = compared_text("pathological"@, p);
    let word = if m.faster && p.faster {
        "promoted"@
    } else {
        "rejected"@
    };
    let rest = " (main_95>1="@ + bool_text(m.faster) + " pathological_95>1="@ + bool_text(p.faster)
        + ")"@;
    let line = "Decision: "@ + word + rest + seq!['\n'];
    lemma_words_differ();
    assert(lacks(rest, '\n')) by {
        reveal_strlit(" (main_95>1=");
        reveal_strlit(" pathological_95>1=");
        reveal_strlit("true");
        reveal_strlit("false");
        reveal_strlit(")");
    }
    assert(")\n"@ =~= ")"@ + seq!['\n']) by {
        reveal_strlit(")\n");
        reveal_strlit(")");
    }
    assert(text =~= a + b + line);
    lemma_compared_line("main"@, m);
    lemma_compared_line("pathological"@, p);
    lemma_decision_line(a, b, word, rest);
}

/// What is decided where a comparison did not work.
#[verifier::spinoff_prover]
#[verifier::rlimit(40)]
proof fn lemma_undecided(main: Result<Compared, String>, path: Result<Compared, String>)
    requires
        is_on_one_line(main),
        is_on_one_line(path),
        main is Err || path is Err,
    ensures
        ({
            let text = decision_text(main, path);
            &&& !says_decision(text, "promoted"@)
            &&& !says_decision(text, "rejected"@)
            &&& says_decision(text, "none"@)
        }),
{
    let text = decision_text(main, path);
    let a = " (paired run failed: main_err="@;
    let rest = a + failure_text(main) + " path_err="@ + failure_text(path) + ")"@;
    let line = "Decision: "@ + "none"@ + rest + seq!['\n'];
    let none = Seq::<char>::empty();
    lemma_words_differ();
    lemma_failure_line(main);
    lemma_failure_line(path);
    assert(lacks(rest, '\n')) by {
        reveal_strlit(" (paired run failed: main_err=");
        reveal_strlit(" path_err=");
        reveal_strlit(")");
    }
    assert("Decision: none (paired run failed: main_err="@ =~= "Decision: "@ + "none"@ + a) by {
        reveal_strlit("Decision: none (paired run failed: main_err=");
        reveal_strlit("Decision: ");
        reveal_strlit("none");
        reveal_strlit(" (paired run failed: main_err=");
    }
    assert(")\n"@ =~= ")"@ + seq!['\n']) by {
        reveal_strlit(")\n");
        reveal_strlit(")");
    }
    assert(text =~= none + none + line);
    lemma_decision_line(none, none, "none"@, rest);
}

proof fn lemma_failure_line(result: Result<Compared, String>)
    requires
        is_on_one_line(result),
    ensures
        lacks(failure_text(result), '\n'),
{
    reveal_strlit("Some(");
    reveal_strlit("None");
    reveal_strlit(")");
}

/// The log says that a candidate is promoted if and only if both comparisons worked and it is
/// faster in each; that it is rejected if and only if both worked and it is not faster in one;
/// and that nothing is decided if and only if one did not work. This is the outcome that is
/// decided from two passed gates and these comparisons.
pub proof fn logged_decision_is_the_outcome(
    main: Result<Compared, String>,
    path: Result<Compared, String>,
    gates: Seq<Gate>,
)
    requires
        is_on_one_line(main),
        is_on_one_line(path),
        forall|i: int| 0 <= i < gates.len() ==> #[trigger] gates[i] is Equivalent,
    ensures
        ({
            let text = decision_text(main, path);
            let cleared = |r: Result<Compared, String>|
                match r {
                    Ok(c) => Some(c.faster),
                    Err(_) => None,
                };
            let outcome = outcome_of(gates, seq![cleared(main), cleared(path)]);
            &&& says_decision(text, "promoted"@) <==> main is Ok && path is Ok
                && main->Ok_0.faster && path->Ok_0.faster
            &&& says_decision(text, "rejected"@) <==> main is Ok && path is Ok && !(
            main->Ok_0.faster && path->Ok_0.faster)
            &&& says_decision(text, "none"@) <==> main is Err || path is Err
            &&& says_decision(text, "promoted"@) <==> outcome == Outcome::Promoted
            &&& says_decision(text, "rejected"@) <==> outcome == Outcome::NotPromoted
            &&& says_decision(text, "none"@) <==> outcome == Outcome::OperationalFailure
        }),
{
    match (main, path) {
        (Ok(m), Ok(p)) => {
            lemma_decided(m, p);
            let clears = seq![Some(m.faster), Some(p.faster)];
            assert(clears[0] == Some(m.faster));
            assert(clears[1] == Some(p.faster));
        },
        _ => {
            lemma_undecided(main, path);
            let clears = seq![
                match main {
                    Ok(c) => Some(c.faster),
                    Err(_) => None,
                },
                match path {
                    Ok(c) => Some(c.faster),
                    Err(_) => None,
                },
            ];
            assert(clears[0] is None || clears[1] is None);
        },
    }
}

/// A candidate of which a gate does not pass is never promoted; nothing is decided about it if
/// and only if a gate did not work.
pub proof fn stopped_candidates_are_not_promoted(main: Gate, path: Gate)
    requires
        !(main is Equivalent) || !(path is Equivalent),
    ensures
        !says_decision(stopped_text(main, path), "promoted"@),
        says_decision(stopped_text(main, path), "none"@) <==> main is Broken || path is Broken,
        says_decision(stopped_text(main, path), "rejected"@) <==> !(main is Broken)
            && !(path is Broken),
        says_decision(stopped_text(main, path), "none"@) <==> outcome_of(
            seq![main, path],
            Seq::empty(),
        ) == Outcome::OperationalFailure,
        says_decision(stopped_text(main, path), "rejected"@) <==> outcome_of(
            seq![main, path],
            Seq::empty(),
        ) == Outcome::GateFailed,
{
    let text = stopped_text(main, path);
    let broken = main is Broken || path is Broken;
    let word = if broken {
        "none"@
    } else {
        "rejected"@
    };
    let rest = if broken {
        " (operational failure of the equivalence gate)"@
    } else {
        " (equivalence gate)"@
    };
    let a = gates_text(main, path);
    let none = Seq::<char>::empty();
    lemma_words_differ();
    lemma_gates_line(main, path);
    reveal_strlit("Decision: ");
    reveal_strlit("none");
    reveal_strlit("rejected");
    reveal_strlit(" (operational failure of the equivalence gate)");
    reveal_strlit(" (equivalence gate)");
    reveal_strlit("Decision: none (operational failure of the equivalence gate)\n");
    reveal_strlit("Decision: rejected (equivalence gate)\n");
    let line = "Decision: "@ + word + rest + seq!['\n'];
    assert(text =~= a + none + line);
    lemma_decision_line(a, none, word, rest);
    let gates = seq![main, path];
    assert(gates[0] == main);
    assert(gates[1] == path);
}

/// No word that a decision begins with is the start of another.
proof fn lemma_words_differ()
    ensures
        "promoted"@.len() == 8,
        "rejected"@.len() == 8,
        "none"@.len() == 4,
        "promoted"@[0] == 'p',
        "rejected"@[0] == 'r',
        "none"@[0] == 'n',
        lacks("promoted"@, '\n'),
        lacks("rejected"@, '\n'),
        lacks("none"@, '\n'),
{
    reveal_strlit("promoted");
    reveal_strlit("rejected");
    reveal_strlit("none");
}

proof fn lemma_compared_line(workload: Seq<char>, compared: Compared)
    requires
        workload == "main"@ || workload == "pathological"@,
        is_on_one_line(Ok(compared)),
    ensures
        is_no_decision(compared_text(workload, compared)),
{
    reveal_strlit("main");
    reveal_strlit("pathological");
    reveal_strlit(": lower_95_ratio=");
    reveal_strlit(" speedup_percent=");
    reveal_strlit(" evidence=");
    reveal_strlit("\n");
    let text = compared_text(workload, compared);
    assert(text[0] == workload[0]);
}

proof fn lemma_gates_line(main: Gate, path: Gate)
    ensures
        is_no_decision(gates_text(main, path)),
{
    reveal_strlit("gate: main=");
    reveal_strlit(" pathological=");
    reveal_strlit("\n");
    lemma_gate_name(main);
    lemma_gate_name(path);
    let text = gates_text(main, path);
    assert(text[0] == 'g');
}

/// Whether `text` is nothing, or one line that does not begin with a `D`.
spec fn is_no_decision(text: Seq<char>) -> bool {
    text.len() == 0 || {
        &&& text.last() == '\n'
        &&& lacks(text.drop_last(), '\n')
        &&& text[0] != 'D'
    }
}

/// The decision behind two lines that are none.
proof fn lemma_decision_line(a: Seq<char>, b: Seq<char>, word: Seq<char>, rest: Seq<char>)
    requires
        is_no_decision(a),
        is_no_decision(b),
        word.len() > 0,
        lacks(word, '\n'),
        lacks(rest, '\n'),
    ensures
        ({
            let text = a + b + ("Decision: "@ + word + rest + seq!['\n']);
            &&& says_decision(text, word)
            &&& forall|other: Seq<char>|
                other.len() > 0 && other[0] != word[0] ==> !says_decision(text, other)
        }),
{
    reveal_strlit("Decision: ");
    let head = "Decision: "@;
    let line = head + word + rest + seq!['\n'];
    let text = a + b + line;
    let at = (a + b).len() as int;
    assert(text.subrange(at, at + (head + word).len()) =~= head + word);
    if at > 0 {
        assert(text[at - 1] == '\n') by {
            if b.len() > 0 {
                assert(text[at - 1] == b.last());
            } else {
                assert(text[at - 1] == a.last());
            }
        }
    }
    assert(says_decision_at(text, word, at));
    assert forall|other: Seq<char>| other.len() > 0 && other[0] != word[0] implies !says_decision(
        text,
        other,
    ) by {
        if says_decision(text, other) {
            let i = choose|i: int| says_decision_at(text, other, i);
            let start = head + other;
            let part = text.subrange(i, i + start.len());
            assert(part[0] == start[0] == 'D');
            assert(text[i] == 'D');
            assert(part[10] == other[0]);
            assert(text[i + 10] == other[0]);
            if i < a.len() {
                assert(text[i] == a[i]);
                if i > 0 {
                    assert(text[i - 1] == a[i - 1]);
                    assert(a.drop_last()[i - 1] == a[i - 1]);
                }
            } else if i < at {
                let j = i - a.len();
                assert(text[i] == b[j]);
                if j > 0 {
                    assert(text[i - 1] == b[j - 1]);
                    assert(b.drop_last()[j - 1] == b[j - 1]);
                }
            } else if i == at {
                assert(text[at + 10] == word[0]);
            } else {
                let j = i - at;
                assert(text[i - 1] == line[j - 1]);
                assert(lacks(head + word + rest, '\n'));
                assert(line[j - 1] == (head + word + rest)[j - 1]);
            }
        }
    }
}

proof fn lemma_gate_name(gate: Gate)
    ensures
        lacks(gate_name(gate), '\n'),
{
    reveal_strlit("PASS");
    reveal_strlit("FAIL");
    reveal_strlit("ERROR");
}

// ---------------------------------------------------------------------------
// What is read from outputs.
// ---------------------------------------------------------------------------

/// The value of a key in a line is that of its first word for the key.
pub proof fn first_values_are_first(words: Seq<Seq<char>>, key: Seq<char>, value: Seq<char>)
    ensures
        first_value(words, key) == Some(value) <==> exists|i: int|
            0 <= i < words.len() && #[trigger] words[i] == key + "="@ + value && forall|j: int|
                0 <= j < i ==> !begins_with(#[trigger] words[j], key + "="@),
        first_value(words, key) is None <==> forall|j: int|
            0 <= j < words.len() ==> !begins_with(#[trigger] words[j], key + "="@),
    decreases words.len(),
{
    let prefix = key + "="@;
    if words.len() > 0 {
        let rest = words.drop_first();
        let word = words[0];
        first_values_are_first(rest, key, value);
        if begins_with(word, prefix) {
            assert(word =~= word.take(prefix.len() as int) + word.skip(prefix.len() as int));
            if word == prefix + value {
                assert(word.skip(prefix.len() as int) =~= value);
            }
            if exists|i: int|
                0 <= i < words.len() && #[trigger] words[i] == prefix + value && forall|j: int|
                    0 <= j < i ==> !begins_with(#[trigger] words[j], prefix) {
                let i = choose|i: int|
                    0 <= i < words.len() && #[trigger] words[i] == prefix + value && forall|j: int|
                        0 <= j < i ==> !begins_with(#[trigger] words[j], prefix);
                assert(i == 0);
            }
        } else {
            assert((prefix + value).take(prefix.len() as int) =~= prefix);
            if exists|i: int|
                0 <= i < words.len() && #[trigger] words[i] == prefix + value && forall|j: int|
                    0 <= j < i ==> !begins_with(#[trigger] words[j], prefix) {
                let i = choose|i: int|
                    0 <= i < words.len() && #[trigger] words[i] == prefix + value && forall|j: int|
                        0 <= j < i ==> !begins_with(#[trigger] words[j], prefix);
                assert(rest[i - 1] == prefix + value);
                assert forall|j: int| 0 <= j < i - 1 implies !begins_with(
                    #[trigger] rest[j],
                    prefix,
                ) by {
                    assert(rest[j] == words[j + 1]);
                }
            }
            if first_value(rest, key) == Some(value) {
                let i = choose|i: int|
                    0 <= i < rest.len() && #[trigger] rest[i] == prefix + value && forall|j: int|
                        0 <= j < i ==> !begins_with(#[trigger] rest[j], prefix);
                assert(words[i + 1] == prefix + value);
                assert forall|j: int| 0 <= j < i + 1 implies !begins_with(
                    #[trigger] words[j],
                    prefix,
                ) by {
                    if j > 0 {
                        assert(rest[j - 1] == words[j]);
                    }
                }
            }
            if first_value(rest, key) is None {
                assert forall|j: int| 0 <= j < words.len() implies !begins_with(
                    #[trigger] words[j],
                    prefix,
                ) by {
                    if j > 0 {
                        assert(rest[j - 1] == words[j]);
                    }
                }
            }
            if forall|j: int| 0 <= j < words.len() ==> !begins_with(#[trigger] words[j], prefix) {
                assert forall|j: int| 0 <= j < rest.len() implies !begins_with(
                    #[trigger] rest[j],
                    prefix,
                ) by {
                    assert(rest[j] == words[j + 1]);
                }
            }
        }
    }
}

/// The first line with a start is in the text, begins with the start, and no earlier line does.
pub proof fn first_lines_are_first(lines: Seq<Seq<char>>, start: Seq<char>)
    ensures
        match first_line(lines, start) {
            Some(line) => exists|i: int|
                0 <= i < lines.len() && #[trigger] lines[i] == line && begins_with(line, start)
                    && forall|j: int| 0 <= j < i ==> !begins_with(#[trigger] lines[j], start),
            None => forall|j: int|
                0 <= j < lines.len() ==> !begins_with(#[trigger] lines[j], start),
        },
    decreases lines.len(),
{
    if lines.len() > 0 && !begins_with(lines[0], start) {
        let rest = lines.drop_first();
        first_lines_are_first(rest, start);
        match first_line(rest, start) {
            Some(line) => {
                let i = choose|i: int|
                    0 <= i < rest.len() && #[trigger] rest[i] == line && begins_with(line, start)
                        && forall|j: int| 0 <= j < i ==> !begins_with(#[trigger] rest[j], start);
                assert(lines[i + 1] == line);
                assert forall|j: int| 0 <= j < i + 1 implies !begins_with(
                    #[trigger] lines[j],
                    start,
                ) by {
                    if j > 0 {
                        assert(rest[j - 1] == lines[j]);
                    }
                }
            },
            None => {
                assert forall|j: int| 0 <= j < lines.len() implies !begins_with(
                    #[trigger] lines[j],
                    start,
                ) by {
                    if j > 0 {
                        assert(rest[j - 1] == lines[j]);
                    }
                }
            },
        }
    } else if lines.len() > 0 {
        assert(lines[0] == first_line(lines, start)->0);
    }
}

/// A verdict is what the first line with a result gives for its lower bound, its speedup and
/// its evidence. There is none without the lower bound.
pub proof fn verdicts_come_of_the_result(output: Seq<char>)
    ensures
        verdict_in(output) is Ok <==> (first_line(lines_of(output), "RESULT"@) matches Some(line)
            && field_in(line, "lower_95_one_sided_ratio"@) is Some),
        verdict_in(output) matches Ok((lower, speedup, evidence)) ==> {
            let line = first_line(lines_of(output), "RESULT"@)->0;
            &&& field_in(line, "lower_95_one_sided_ratio"@) == Some(lower)
            &&& field_in(line, "speedup_percent"@) == speedup
            &&& field_in(line, "evidence"@) == Some(evidence) || (field_in(line, "evidence"@) is None
                && evidence.len() == 0)
        },
{
}

/// Whether a line is a gate record: its first field is the version.
pub open spec fn is_gate_line(line: Seq<char>) -> bool {
    split_on(line, '\t')[0] == "optiwork-gate-v1"@
}

proof fn lemma_no_gate_line(lines: Seq<Seq<char>>)
    ensures
        gate_records(lines).len() == 0 <==> forall|j: int|
            0 <= j < lines.len() ==> !is_gate_line(#[trigger] lines[j]),
    decreases lines.len(),
{
    if lines.len() > 0 {
        let most = lines.drop_last();
        let n = lines.len() - 1;
        lemma_no_gate_line(most);
        assert(lines.last() == lines[n]);
        if gate_records(lines).len() == 0 {
            assert forall|j: int| 0 <= j < lines.len() implies !is_gate_line(
                #[trigger] lines[j],
            ) by {
                if j < n {
                    assert(!is_gate_line(most[j]));
                }
            }
        } else if gate_records(most).len() > 0 {
            let j = choose|j: int| 0 <= j < most.len() && is_gate_line(#[trigger] most[j]);
            assert(is_gate_line(lines[j]));
        } else {
            assert(is_gate_line(lines[n]));
        }
    }
}

/// The only gate record is the only line that is one.
proof fn lemma_only_gate_line(lines: Seq<Seq<char>>, i: int)
    requires
        0 <= i < lines.len(),
        is_gate_line(lines[i]),
        forall|j: int| 0 <= j < lines.len() && j != i ==> !is_gate_line(#[trigger] lines[j]),
    ensures
        gate_records(lines) == seq![split_on(lines[i], '\t')],
    decreases lines.len(),
{
    let most = lines.drop_last();
    let n = lines.len() - 1;
    assert(lines.last() == lines[n]);
    if i == n {
        assert forall|j: int| 0 <= j < most.len() implies !is_gate_line(#[trigger] most[j]) by {
            assert(most[j] == lines[j]);
        }
        lemma_no_gate_line(most);
        assert(gate_records(most) =~= Seq::empty());
        assert(gate_records(lines) =~= seq![split_on(lines[i], '\t')]);
    } else {
        assert(!is_gate_line(lines[n]));
        assert(most[i] == lines[i]);
        assert forall|j: int| 0 <= j < most.len() && j != i implies !is_gate_line(
            #[trigger] most[j],
        ) by {
            assert(most[j] == lines[j]);
        }
        lemma_only_gate_line(most, i);
    }
}

/// Where there is only one gate record, only one line is one.
proof fn lemma_gate_line_found(lines: Seq<Seq<char>>) -> (i: int)
    requires
        gate_records(lines).len() == 1,
    ensures
        0 <= i < lines.len(),
        is_gate_line(lines[i]),
        forall|j: int| 0 <= j < lines.len() && j != i ==> !is_gate_line(#[trigger] lines[j]),
    decreases lines.len(),
{
    let most = lines.drop_last();
    let n = lines.len() - 1;
    assert(lines.last() == lines[n]);
    if is_gate_line(lines[n]) {
        lemma_no_gate_line(most);
        assert forall|j: int| 0 <= j < lines.len() && j != n implies !is_gate_line(
            #[trigger] lines[j],
        ) by {
            assert(!is_gate_line(most[j]));
        }
        n
    } else {
        let i = lemma_gate_line_found(most);
        assert forall|j: int| 0 <= j < lines.len() && j != i implies !is_gate_line(
            #[trigger] lines[j],
        ) by {
            if j < n {
                assert(!is_gate_line(most[j]));
            }
        }
        i
    }
}

/// Whether the fields of a gate record say that the artifact is equivalent on the workload.
pub open spec fn says_equivalent(
    fields: Seq<Seq<char>>,
    artifact: Seq<char>,
    workload: Seq<char>,
) -> bool {
    &&& gives_once(fields, "status"@, "equivalent"@)
    &&& gives_once(fields, "artifact_id"@, artifact)
    &&& gives_once(fields, "workload_id"@, workload)
    &&& exists|n: nat|
        n >= 1 && #[trigger] gives_number(fields, "checked_units"@, n, 0xffff_ffff_ffff_ffff)
}

proof fn lemma_says_equivalent(fields: Seq<Seq<char>>, artifact: Seq<char>, workload: Seq<char>)
    ensures
        is_gate_evidence(fields, artifact, workload) <==> says_equivalent(
            fields,
            artifact,
            workload,
        ),
{
    lemma_given(fields, "status"@, "equivalent"@);
    lemma_given(fields, "artifact_id"@, artifact);
    lemma_given(fields, "workload_id"@, workload);
    let key = "checked_units"@;
    let wide = 0xffff_ffff_ffff_ffff as nat;
    let units = values_of(fields, key);
    if units.len() == 1 {
        lemma_given(fields, key, units[0]);
        assert(units =~= seq![units[0]]);
        if let Some(n) = number_in(units[0], wide) {
            assert(gives_number(fields, key, n, wide));
        }
    }
    if exists|n: nat| n >= 1 && #[trigger] gives_number(fields, key, n, wide) {
        let n = choose|n: nat| n >= 1 && #[trigger] gives_number(fields, key, n, wide);
        let value = choose|value: Seq<char>| #[trigger]
            gives_once(fields, key, value) && number_in(value, wide) == Some(n);
        lemma_given(fields, key, value);
        assert(seq![value][0] == value);
    }
}

/// A gate passes if and only if its program succeeded and exactly one line of its output is a
/// gate record, which says that the artifact and the workload that were asked for are
/// equivalent, and that at least one unit was checked; each of them in exactly one field.
pub proof fn passed_gates_have_evidence(
    exit: GateExit,
    output: Seq<char>,
    artifact: Seq<char>,
    workload: Seq<char>,
)
    ensures
        gate_passes(exit, output, artifact, workload) <==> exit == GateExit::Status(0) && exists|
            i: int,
        |
            0 <= i < lines_of(output).len() && is_gate_line(#[trigger] lines_of(output)[i])
                && says_equivalent(split_on(lines_of(output)[i], '\t'), artifact, workload)
                && forall|j: int|
                0 <= j < lines_of(output).len() && j != i ==> !is_gate_line(
                    #[trigger] lines_of(output)[j],
                ),
{
    let lines = lines_of(output);
    if gate_passes(exit, output, artifact, workload) {
        let i = lemma_gate_line_found(lines);
        lemma_only_gate_line(lines, i);
        lemma_says_equivalent(split_on(lines[i], '\t'), artifact, workload);
        assert(seq![split_on(lines[i], '\t')][0] == split_on(lines[i], '\t'));
    }
    if exists|i: int|
        0 <= i < lines.len() && is_gate_line(#[trigger] lines[i]) && says_equivalent(
            split_on(lines[i], '\t'),
            artifact,
            workload,
        ) && forall|j: int| 0 <= j < lines.len() && j != i ==> !is_gate_line(#[trigger] lines[j]) {
        let i = choose|i: int|
            0 <= i < lines.len() && is_gate_line(#[trigger] lines[i]) && says_equivalent(
                split_on(lines[i], '\t'),
                artifact,
                workload,
            ) && forall|j: int|
                0 <= j < lines.len() && j != i ==> !is_gate_line(#[trigger] lines[j]);
        lemma_only_gate_line(lines, i);
        lemma_says_equivalent(split_on(lines[i], '\t'), artifact, workload);
    }
}

proof fn lemma_given(fields: Seq<Seq<char>>, key: Seq<char>, value: Seq<char>)
    ensures
        values_of(fields, key) == seq![value] <==> gives_once(fields, key, value),
{
    values_are_given_once(fields, key, value);
    let values = values_of(fields, key);
    if values.len() == 1 && values[0] == value {
        assert(values =~= seq![value]);
    }
    if values == seq![value] {
        assert(seq![value][0] == value);
    }
}

/// What became of a candidate, from its gates and comparisons: each outcome comes of one case
/// and of no other. Something that did not work comes before a mismatch among the gates, and
/// comparisons count only if all gates passed.
#[verifier::spinoff_prover]
#[verifier::rlimit(40)]
pub proof fn outcomes_come_of_one_case(gates: Seq<Gate>, clears: Seq<Option<bool>>)
    ensures
        ({
            let broken = exists|i: int| 0 <= i < gates.len() && #[trigger] gates[i] is Broken;
            let mismatch = exists|i: int| 0 <= i < gates.len() && #[trigger] gates[i] is Mismatch;
            let passed = forall|i: int|
                0 <= i < gates.len() ==> #[trigger] gates[i] is Equivalent;
            let lost = exists|i: int| 0 <= i < clears.len() && #[trigger] clears[i] is None;
            let missed = exists|i: int|
                0 <= i < clears.len() && #[trigger] clears[i] == Some(false);
            &&& outcome_of(gates, clears) == Outcome::OperationalFailure <==> broken || passed
                && lost
            &&& outcome_of(gates, clears) == Outcome::GateFailed <==> mismatch && !broken
            &&& outcome_of(gates, clears) == Outcome::NotPromoted <==> passed && missed && !lost
        }),
{
    let broken = exists|i: int| 0 <= i < gates.len() && #[trigger] gates[i] is Broken;
    let mismatch = exists|i: int| 0 <= i < gates.len() && #[trigger] gates[i] is Mismatch;
    let lost = exists|i: int| 0 <= i < clears.len() && #[trigger] clears[i] is None;
    if !broken && !mismatch {
        assert forall|i: int| 0 <= i < gates.len() implies #[trigger] gates[i] is Equivalent by {
            assert(!(gates[i] is Broken) && !(gates[i] is Mismatch));
        }
        if !lost && !(forall|i: int|
            0 <= i < clears.len() ==> #[trigger] clears[i] == Some(true)) {
            let i = choose|i: int|
                0 <= i < clears.len() && #[trigger] clears[i] != Some(true);
            assert(!(clears[i] is None));
            assert(clears[i] == Some(false));
        }
    }
}

/// How a gate is shown tells what it found.
pub proof fn gates_are_shown_apart(gate: Gate)
    ensures
        gate_name(gate) == "PASS"@ <==> gate is Equivalent,
        gate_name(gate) == "FAIL"@ <==> gate is Mismatch,
        gate_name(gate) == "ERROR"@ <==> gate is Broken,
{
    reveal_strlit("PASS");
    reveal_strlit("FAIL");
    reveal_strlit("ERROR");
    assert("PASS"@[0] == 'P' && "FAIL"@[0] == 'F' && "ERROR"@[0] == 'E');
}

/// A path is the directory, one slash and the name, whether the directory is written with a
/// slash at its end or without one.
pub proof fn paths_have_one_slash(dir: Seq<char>, name: Seq<char>)
    requires
        dir.len() == 0 || dir.last() != '/',
    ensures
        path_in(dir, name) == dir + seq!['/'] + name,
        path_in(dir + seq!['/'], name) == dir + seq!['/'] + name,
{
    reveal_strlit("/");
    assert("/"@ =~= seq!['/']);
    assert((dir + seq!['/']).last() == '/');
}

/// A gate finds an artifact equivalent if and only if its process ended with status zero and
/// exactly one line of its output is the evidence; and different if and only if it ended with
/// status one. However else it ended, and with whatever output, it did not work.
pub proof fn gates_are_judged_by_status_and_evidence(
    exit: GateExit,
    output: Seq<char>,
    artifact: Seq<char>,
    workload: Seq<char>,
)
    ensures
        judged(exit, output, artifact, workload) == Some(true) <==> exit == GateExit::Status(0)
            && exists|i: int|
            0 <= i < lines_of(output).len() && is_gate_line(#[trigger] lines_of(output)[i])
                && says_equivalent(split_on(lines_of(output)[i], '\t'), artifact, workload)
                && forall|j: int|
                0 <= j < lines_of(output).len() && j != i ==> !is_gate_line(
                    #[trigger] lines_of(output)[j],
                ),
        judged(exit, output, artifact, workload) == Some(false) <==> exit == GateExit::Status(1),
        exit is Stopped ==> judged(exit, output, artifact, workload) is None,
        exit matches GateExit::Status(status) && status != 0 && status != 1 ==> judged(
            exit,
            output,
            artifact,
            workload,
        ) is None,
{
    passed_gates_have_evidence(exit, output, artifact, workload);
}

}
