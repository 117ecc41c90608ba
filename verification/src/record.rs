//! Fixed-work records, block orders and schedules.
use crate::text::{
    begins_with, behind, chars_of, decimal, field_text, join_texts, joined,
    joined_parts_are_split, lacks, lemma_decimal_lacks, lemma_field_key, lemma_joined_lacks, lemma_no_field, lemma_views_push,
    lines_of, number_in, number_is_read_back, number_text, one_line_is_read_back, parse_number,
    same_text, split_lines, split_on, split_text, strip_prefix, text_from, trim_chars, trimmed,
    upper, upper_chars, views,
};
use vstd::prelude::*;

verus! {

/// The version that opens every fixed-work record.
pub const FIXED_RECORD_VERSION: &'static str = "optiwork-fixed-v1";

/// The side of a paired comparison that an observation belongs to.
#[derive(Clone, Copy, Debug, PartialEq, Eq, Structural)]
pub enum Label {
    Baseline,
    Candidate,
}

impl Label {
    /// The letter of the side.
    pub open spec fn letter(self) -> Seq<char> {
        match self {
            Label::Baseline => "A"@,
            Label::Candidate => "B"@,
        }
    }

    pub fn as_str(self) -> (letter: &'static str)
        ensures
            letter@ == self.letter(),
    {
        match self {
            Self::Baseline => "A",
            Self::Candidate => "B",
        }
    }
}

/// The order of the four observations of a block. Each side is observed twice, so that a
/// steady drift within a block cancels out.
#[derive(Clone, Copy, Debug, PartialEq, Eq, Structural)]
pub enum BlockOrder {
    Abba,
    Baab,
}

/// The block order that a text names: its name in any case, with white space around it.
pub open spec fn order_named(text: Seq<char>) -> Option<BlockOrder> {
    let name = upper(trimmed(text));
    if name == "ABBA"@ {
        Some(BlockOrder::Abba)
    } else if name == "BAAB"@ {
        Some(BlockOrder::Baab)
    } else {
        None
    }
}

/// The complaint about a text that names no block order.
pub open spec fn bad_order(text: Seq<char>) -> Seq<char> {
    "invalid block order `"@ + text + "`; expected `ABBA` or `BAAB`"@
}

impl BlockOrder {
    /// The name of the order.
    pub open spec fn name(self) -> Seq<char> {
        match self {
            BlockOrder::Abba => "ABBA"@,
            BlockOrder::Baab => "BAAB"@,
        }
    }

    /// The sides in the order in which they are observed.
    pub open spec fn sides(self) -> Seq<Label> {
        match self {
            BlockOrder::Abba => seq![
                Label::Baseline,
                Label::Candidate,
                Label::Candidate,
                Label::Baseline,
            ],
            BlockOrder::Baab => seq![
                Label::Candidate,
                Label::Baseline,
                Label::Baseline,
                Label::Candidate,
            ],
        }
    }

    pub fn parse(value: &str) -> (order: Result<Self, String>)
        ensures
            match order {
                Ok(o) => order_named(value@) == Some(o),
                Err(e) => order_named(value@) is None && e@ == bad_order(value@),
            },
    {
        let name = text_from(&upper_chars(&trim_chars(&chars_of(value))));
        if same_text(name.as_str(), "ABBA") {
            Ok(Self::Abba)
        } else if same_text(name.as_str(), "BAAB") {
            Ok(Self::Baab)
        } else {
            Err(
                "invalid block order `".to_owned().concat(value).concat(
                    "`; expected `ABBA` or `BAAB`",
                ),
            )
        }
    }

    pub fn labels(self) -> (labels: [Label; 4])
        ensures
            labels@ == self.sides(),
    {
        match self {
            Self::Abba => [
                Label::Baseline,
                Label::Candidate,
                Label::Candidate,
                Label::Baseline,
            ],
            Self::Baab => [
                Label::Candidate,
                Label::Baseline,
                Label::Baseline,
                Label::Candidate,
            ],
        }
    }

    pub fn as_str(self) -> (name: &'static str)
        ensures
            name@ == self.name(),
    {
        match self {
            Self::Abba => "ABBA",
            Self::Baab => "BAAB",
        }
    }
}

/// The name of an order is read back as that order.
pub proof fn order_is_read_back(order: BlockOrder)
    ensures
        order_named(order.name()) == Some(order),
{
    reveal_strlit("ABBA");
    reveal_strlit("BAAB");
    let name = order.name();
    assert(trimmed(name) == name);
    assert(upper(name) =~= name);
    assert("ABBA"@ != "BAAB"@) by {
        assert("ABBA"@[0] != "BAAB"@[0]);
    }
}

/// How often `label` stands in `labels`.
pub open spec fn times(labels: Seq<Label>, label: Label) -> nat
    decreases labels.len(),
{
    if labels.len() == 0 {
        0
    } else {
        times(labels.drop_last(), label) + (if labels.last() == label {
            1nat
        } else {
            0nat
        })
    }
}

/// Every order observes each side twice, and once in each half of the block.
pub proof fn orders_are_balanced(order: BlockOrder, label: Label)
    ensures
        order.sides().len() == 4,
        times(order.sides(), label) == 2,
        times(order.sides().take(2), label) == 1,
        times(order.sides().skip(2), label) == 1,
{
    reveal_with_fuel(times, 5);
}

// ---------------------------------------------------------------------------
// Records.
// ---------------------------------------------------------------------------

/// A fixed-work measurement record.
#[derive(Debug, PartialEq, Eq)]
pub struct FixedRecord {
    pub mode: String,
    pub seed: u64,
    pub count: u64,
    pub sessions: u64,
    pub warmup_sessions: u64,
    pub requested: u64,
    pub completed: u64,
    pub attempts: u64,
    pub elapsed_ns: u128,
    pub output_bytes: u64,
}

/// What a record says.
pub struct Work {
    pub mode: Seq<char>,
    pub seed: nat,
    pub count: nat,
    pub sessions: nat,
    pub warmup_sessions: nat,
    pub requested: nat,
    pub completed: nat,
    pub attempts: nat,
    pub elapsed_ns: nat,
    pub output_bytes: nat,
}

impl View for FixedRecord {
    type V = Work;

    open spec fn view(&self) -> Work {
        Work {
            mode: self.mode@,
            seed: self.seed as nat,
            count: self.count as nat,
            sessions: self.sessions as nat,
            warmup_sessions: self.warmup_sessions as nat,
            requested: self.requested as nat,
            completed: self.completed as nat,
            attempts: self.attempts as nat,
            elapsed_ns: self.elapsed_ns as nat,
            output_bytes: self.output_bytes as nat,
        }
    }
}

/// What the fields of a line say.
pub open spec fn field_texts(fields: Seq<&str>) -> Seq<Seq<char>> {
    fields.map_values(|f: &str| f@)
}

/// The values that `fields` give for `key`, in order.
pub open spec fn values_of(fields: Seq<Seq<char>>, key: Seq<char>) -> Seq<Seq<char>>
    decreases fields.len(),
{
    if fields.len() == 0 {
        Seq::empty()
    } else {
        let rest = values_of(fields.drop_last(), key);
        match behind(fields.last(), key + "="@) {
            Some(value) => rest.push(value),
            None => rest,
        }
    }
}

/// The one value that `fields` give for `key`, or the complaint that it is missing or
/// repeated.
pub open spec fn field_value(fields: Seq<Seq<char>>, key: Seq<char>) -> Result<
    Seq<char>,
    Seq<char>,
> {
    let values = values_of(fields, key);
    if values.len() == 0 {
        Err("measurement record is missing `"@ + key + "`"@)
    } else if values.len() > 1 {
        Err("measurement record repeats `"@ + key + "`"@)
    } else {
        Ok(values[0])
    }
}

/// The value of the only field `key=value`.
pub fn record_field<'a>(fields: &'a [&'a str], key: &str) -> (value: Result<&'a str, String>)
    ensures
        match value {
            Ok(v) => field_value(field_texts(fields@), key@) == Ok::<Seq<char>, Seq<char>>(v@),
            Err(e) => field_value(field_texts(fields@), key@) == Err::<Seq<char>, Seq<char>>(e@),
        },
{
    let prefix = key.to_owned().concat("=");
    let ghost texts = field_texts(fields@);
    let mut found: Option<&'a str> = None;
    let mut repeated: bool = false;
    let mut i: usize = 0;
    while i < fields.len()
        invariant
            i <= fields.len(),
            texts == field_texts(fields@),
            prefix@ == key@ + "="@,
            repeated == (values_of(texts.take(i as int), key@).len() > 1),
            match found {
                Some(v) => values_of(texts.take(i as int), key@).len() > 0 && values_of(
                    texts.take(i as int),
                    key@,
                )[0] == v@,
                None => values_of(texts.take(i as int), key@).len() == 0,
            },
        decreases fields.len() - i,
    {
        let field: &'a str = fields[i];
        proof {
            let more = texts.take(i + 1);
            assert(more.drop_last() =~= texts.take(i as int));
            assert(more.last() == field@);
        }
        match strip_prefix(field, prefix.as_str()) {
            Some(value) => {
                if found.is_some() {
                    repeated = true;
                } else {
                    found = Some(value);
                }
            },
            None => {},
        }
        i += 1;
    }
    assert(texts.take(texts.len() as int) =~= texts);
    match found {
        None => Err("measurement record is missing `".to_owned().concat(key).concat("`")),
        Some(value) => {
            if repeated {
                Err("measurement record repeats `".to_owned().concat(key).concat("`"))
            } else {
                Ok(value)
            }
        },
    }
}

/// The number not above `max` that `fields` give for `key`.
pub open spec fn number_field(fields: Seq<Seq<char>>, key: Seq<char>, max: nat) -> Result<
    nat,
    Seq<char>,
> {
    match field_value(fields, key) {
        Err(e) => Err(e),
        Ok(value) => match number_in(value, max) {
            Some(n) => Ok(n),
            None => Err("measurement field `"@ + key + "` is not an integer"@),
        },
    }
}

fn parse_field(fields: &[&str], key: &str, max: u128) -> (value: Result<u128, String>)
    ensures
        match value {
            Ok(v) => v <= max && number_field(field_texts(fields@), key@, max as nat) == Ok::<
                nat,
                Seq<char>,
            >(v as nat),
            Err(e) => number_field(field_texts(fields@), key@, max as nat) == Err::<nat, Seq<char>>(
                e@,
            ),
        },
{
    match record_field(fields, key) {
        Err(e) => Err(e),
        Ok(text) => match parse_number(text, max) {
            Some(n) => Ok(n),
            None => Err("measurement field `".to_owned().concat(key).concat("` is not an integer")),
        },
    }
}

fn parse_u64_field(fields: &[&str], key: &str) -> (value: Result<u64, String>)
    ensures
        match value {
            Ok(v) => number_field(field_texts(fields@), key@, u64::MAX as nat) == Ok::<
                nat,
                Seq<char>,
            >(v as nat),
            Err(e) => number_field(field_texts(fields@), key@, u64::MAX as nat) == Err::<
                nat,
                Seq<char>,
            >(e@),
        },
{
    match parse_field(fields, key, u64::MAX as u128) {
        Ok(v) => Ok(v as u64),
        Err(e) => Err(e),
    }
}

/// The work that the fields of a record line describe, or the complaint about the first
/// field, in the order of the record, that is missing, repeated or no number.
pub open spec fn work_in(fields: Seq<Seq<char>>) -> Result<Work, Seq<char>> {
    let wide = u64::MAX as nat;
    match field_value(fields, "mode"@) {
        Err(e) => Err(e),
        Ok(mode) => match number_field(fields, "seed"@, wide) {
            Err(e) => Err(e),
            Ok(seed) => match number_field(fields, "count"@, wide) {
                Err(e) => Err(e),
                Ok(count) => match number_field(fields, "sessions"@, wide) {
                    Err(e) => Err(e),
                    Ok(sessions) => match number_field(fields, "warmup_sessions"@, wide) {
                        Err(e) => Err(e),
                        Ok(warmup_sessions) => match number_field(fields, "requested"@, wide) {
                            Err(e) => Err(e),
                            Ok(requested) => match number_field(fields, "completed"@, wide) {
                                Err(e) => Err(e),
                                Ok(completed) => match number_field(fields, "attempts"@, wide) {
                                    Err(e) => Err(e),
                                    Ok(attempts) => match number_field(
                                        fields,
                                        "elapsed_ns"@,
                                        u128::MAX as nat,
                                    ) {
                                        Err(e) => Err(e),
                                        Ok(elapsed_ns) => match number_field(
                                            fields,
                                            "output_bytes"@,
                                            wide,
                                        ) {
                                            Err(e) => Err(e),
                                            Ok(output_bytes) => Ok(
                                                Work {
                                                    mode,
                                                    seed,
                                                    count,
                                                    sessions,
                                                    warmup_sessions,
                                                    requested,
                                                    completed,
                                                    attempts,
                                                    elapsed_ns,
                                                    output_bytes,
                                                },
                                            ),
                                        },
                                    },
                                },
                            },
                        },
                    },
                },
            },
        },
    }
}

/// The record that the output of a measurement holds. It is one line of fields between
/// tabs, of which the first is the version.
pub open spec fn record_in(text: Seq<char>) -> Result<Work, Seq<char>> {
    let lines = lines_of(text);
    if lines.len() == 0 {
        Err("benchmark produced no measurement record"@)
    } else if lines.len() > 1 {
        Err("benchmark produced more than one output line"@)
    } else {
        let fields = split_on(lines[0], '\t');
        if fields[0] != FIXED_RECORD_VERSION@ {
            Err("unsupported measurement record version `"@ + fields[0] + "`"@)
        } else {
            match work_in(fields) {
                Err(e) => Err(e),
                Ok(work) => if work.elapsed_ns == 0 {
                    Err("measurement elapsed time must be greater than zero"@)
                } else {
                    Ok(work)
                },
            }
        }
    }
}

/// Borrow every text.
fn borrow_all<'a>(texts: &'a Vec<String>) -> (fields: Vec<&'a str>)
    ensures
        field_texts(fields@) == views(texts@),
{
    let mut fields: Vec<&'a str> = Vec::new();
    let mut i: usize = 0;
    while i < texts.len()
        invariant
            i <= texts.len(),
            field_texts(fields@) == views(texts@).take(i as int),
        decreases texts.len() - i,
    {
        let ghost was = field_texts(fields@);
        fields.push(texts[i].as_str());
        assert(field_texts(fields@) =~= was.push(texts@[i as int]@));
        assert(views(texts@).take(i + 1) =~= was.push(texts@[i as int]@));
        i += 1;
    }
    assert(views(texts@).take(texts.len() as int) =~= views(texts@));
    fields
}

fn read_work(fields: &[&str]) -> (record: Result<FixedRecord, String>)
    ensures
        match record {
            Ok(r) => work_in(field_texts(fields@)) == Ok::<Work, Seq<char>>(r@),
            Err(e) => work_in(field_texts(fields@)) == Err::<Work, Seq<char>>(e@),
        },
{
    let mode = match record_field(fields, "mode") {
        Ok(text) => text.to_owned(),
        Err(e) => return Err(e),
    };
    let seed: u64 = match parse_u64_field(fields, "seed") {
        Ok(v) => v,
        Err(e) => return Err(e),
    };
    let count: u64 = match parse_u64_field(fields, "count") {
        Ok(v) => v,
        Err(e) => return Err(e),
    };
    let sessions: u64 = match parse_u64_field(fields, "sessions") {
        Ok(v) => v,
        Err(e) => return Err(e),
    };
    let warmup_sessions: u64 = match parse_u64_field(fields, "warmup_sessions") {
        Ok(v) => v,
        Err(e) => return Err(e),
    };
    let requested: u64 = match parse_u64_field(fields, "requested") {
        Ok(v) => v,
        Err(e) => return Err(e),
    };
    let completed: u64 = match parse_u64_field(fields, "completed") {
        Ok(v) => v,
        Err(e) => return Err(e),
    };
    let attempts: u64 = match parse_u64_field(fields, "attempts") {
        Ok(v) => v,
        Err(e) => return Err(e),
    };
    let elapsed_ns: u128 = match parse_field(fields, "elapsed_ns", u128::MAX) {
        Ok(v) => v,
        Err(e) => return Err(e),
    };
    let output_bytes: u64 = match parse_u64_field(fields, "output_bytes") {
        Ok(v) => v,
        Err(e) => return Err(e),
    };
    Ok(
        FixedRecord {
            mode,
            seed,
            count,
            sessions,
            warmup_sessions,
            requested,
            completed,
            attempts,
            elapsed_ns,
            output_bytes,
        },
    )
}

/// Parse exactly one record line.
pub fn parse_fixed_record(text: &str) -> (record: Result<FixedRecord, String>)
    ensures
        match record {
            Ok(r) => record_in(text@) == Ok::<Work, Seq<char>>(r@),
            Err(e) => record_in(text@) == Err::<Work, Seq<char>>(e@),
        },
{
    let lines = split_lines(text);
    assert(views(lines@).len() == lines@.len());
    if lines.len() == 0 {
        return Err("benchmark produced no measurement record".to_owned());
    }
    if lines.len() > 1 {
        return Err("benchmark produced more than one output line".to_owned());
    }
    let pieces = split_text(lines[0].as_str(), '\t');
    let fields = borrow_all(&pieces);
    assert(views(pieces@)[0] == pieces@[0]@);
    if !same_text(pieces[0].as_str(), FIXED_RECORD_VERSION) {
        return Err(
            "unsupported measurement record version `".to_owned().concat(pieces[0].as_str()).concat(
                "`",
            ),
        );
    }
    match read_work(fields.as_slice()) {
        Err(e) => Err(e),
        Ok(record) => {
            if record.elapsed_ns == 0 {
                Err("measurement elapsed time must be greater than zero".to_owned())
            } else {
                Ok(record)
            }
        },
    }
}

// ---------------------------------------------------------------------------
// Writing a record.
// ---------------------------------------------------------------------------

/// The names of the fields of a record, in order.
pub open spec fn record_names() -> Seq<Seq<char>> {
    seq![
        "mode"@,
        "seed"@,
        "count"@,
        "sessions"@,
        "warmup_sessions"@,
        "requested"@,
        "completed"@,
        "attempts"@,
        "elapsed_ns"@,
        "items_per_second"@,
        "output_bytes"@,
    ]
}

/// The values of the fields of a record. `speed` is the throughput, written out.
pub open spec fn record_values(work: Work, speed: Seq<char>) -> Seq<Seq<char>> {
    seq![
        work.mode,
        decimal(work.seed),
        decimal(work.count),
        decimal(work.sessions),
        decimal(work.warmup_sessions),
        decimal(work.requested),
        decimal(work.completed),
        decimal(work.attempts),
        decimal(work.elapsed_ns),
        speed,
        decimal(work.output_bytes),
    ]
}

/// Each value behind its name.
pub open spec fn named(names: Seq<Seq<char>>, values: Seq<Seq<char>>) -> Seq<Seq<char>> {
    Seq::new(names.len(), |i: int| field_text(names[i], values[i]))
}

/// A record as it is written, without the line break.
pub open spec fn record_text(work: Work, speed: Seq<char>) -> Seq<char> {
    joined(
        seq![FIXED_RECORD_VERSION@] + named(record_names(), record_values(work, speed)),
        seq!['\t'],
    )
}

pub(crate) fn push_field(fields: &mut Vec<String>, name: &str, value: &str)
    ensures
        views(final(fields)@) == views(old(fields)@).push(field_text(name@, value@)),
{
    let text = name.to_owned().concat("=").concat(value);
    proof {
        lemma_views_push(fields@, text);
    }
    fields.push(text);
}

/// Write a record, without the line break.
pub fn record_line(record: &FixedRecord, speed: &str) -> (line: String)
    ensures
        line@ == record_text(record@, speed@),
{
    let mut fields: Vec<String> = Vec::new();
    fields.push(FIXED_RECORD_VERSION.to_owned());
    assert(views(fields@) =~= seq![FIXED_RECORD_VERSION@]);
    push_field(&mut fields, "mode", record.mode.as_str());
    push_field(&mut fields, "seed", number_text(record.seed as u128).as_str());
    push_field(&mut fields, "count", number_text(record.count as u128).as_str());
    push_field(&mut fields, "sessions", number_text(record.sessions as u128).as_str());
    push_field(&mut fields, "warmup_sessions", number_text(record.warmup_sessions as u128).as_str());
    push_field(&mut fields, "requested", number_text(record.requested as u128).as_str());
    push_field(&mut fields, "completed", number_text(record.completed as u128).as_str());
    push_field(&mut fields, "attempts", number_text(record.attempts as u128).as_str());
    push_field(&mut fields, "elapsed_ns", number_text(record.elapsed_ns).as_str());
    push_field(&mut fields, "items_per_second", speed);
    push_field(&mut fields, "output_bytes", number_text(record.output_bytes as u128).as_str());
    proof {
        reveal_strlit("\t");
        assert("\t"@ =~= seq!['\t']);
        assert(views(fields@) =~= seq![FIXED_RECORD_VERSION@] + named(
            record_names(),
            record_values(record@, speed@),
        ));
    }
    join_texts(&fields, "\t")
}

/// The values of `key` among named fields: the one behind that name, if names differ.
proof fn lemma_values_of_named(
    first: Seq<char>,
    names: Seq<Seq<char>>,
    values: Seq<Seq<char>>,
    key: Seq<char>,
    n: int,
)
    requires
        lacks(first, '='),
        lacks(key, '='),
        names.len() == values.len(),
        forall|i: int| 0 <= i < names.len() ==> lacks(#[trigger] names[i], '='),
        forall|i: int, j: int|
            0 <= i < j < names.len() ==> #[trigger] names[i] != #[trigger] names[j],
        0 <= n <= names.len(),
    ensures
        ({
            let found = values_of((seq![first] + named(names, values)).take(n + 1), key);
            &&& (forall|i: int| 0 <= i < n ==> #[trigger] names[i] != key) ==> found.len() == 0
            &&& forall|i: int| 0 <= i < n && #[trigger] names[i] == key ==> found == seq![values[i]]
        }),
    decreases n,
{
    let all = seq![first] + named(names, values);
    let list = all.take(n + 1);
    if n == 0 {
        lemma_no_field(first, key);
        assert(list.last() == first);
        assert(list.drop_last() =~= Seq::empty());
        assert(values_of(list.drop_last(), key) =~= Seq::empty());
    } else {
        lemma_values_of_named(first, names, values, key, n - 1);
        assert(list.drop_last() =~= all.take(n));
        assert(list.last() == field_text(names[n - 1], values[n - 1]));
        assert(lacks(names[n - 1], '='));
        lemma_field_key(names[n - 1], values[n - 1], key);
        let before = values_of(all.take(n), key);
        let found = values_of(list, key);
        if names[n - 1] == key {
            assert forall|i: int| 0 <= i < n - 1 implies #[trigger] names[i] != key by {}
            assert(before.len() == 0);
            assert(found =~= seq![values[n - 1]]);
            assert forall|i: int| 0 <= i < n && #[trigger] names[i] == key implies found
                == seq![values[i]] by {
                if i < n - 1 {
                    assert(names[i] != names[n - 1]);
                }
            }
        }
    }
}

/// The names of a record differ, and none holds an equals sign, a tab or a line break.
proof fn lemma_record_names()
    ensures
        forall|i: int, j: int|
            0 <= i < j < record_names().len() ==> #[trigger] record_names()[i]
                != #[trigger] record_names()[j],
        forall|i: int|
            0 <= i < record_names().len() ==> {
                &&& lacks(#[trigger] record_names()[i], '=')
                &&& lacks(record_names()[i], '\t')
                &&& lacks(record_names()[i], '\n')
            },
        lacks(FIXED_RECORD_VERSION@, '='),
        lacks(FIXED_RECORD_VERSION@, '\t'),
        lacks(FIXED_RECORD_VERSION@, '\n'),
{
    reveal_strlit("mode");
    reveal_strlit("seed");
    reveal_strlit("count");
    reveal_strlit("sessions");
    reveal_strlit("warmup_sessions");
    reveal_strlit("requested");
    reveal_strlit("completed");
    reveal_strlit("attempts");
    reveal_strlit("elapsed_ns");
    reveal_strlit("items_per_second");
    reveal_strlit("output_bytes");
    reveal_strlit("optiwork-fixed-v1");
    assert("mode"@.len() == 4 && "mode"@[0] == 'm');
    assert("seed"@.len() == 4 && "seed"@[0] == 's');
    assert("count"@.len() == 5 && "count"@[0] == 'c');
    assert("sessions"@.len() == 8 && "sessions"@[0] == 's');
    assert("warmup_sessions"@.len() == 15 && "warmup_sessions"@[0] == 'w');
    assert("requested"@.len() == 9 && "requested"@[0] == 'r');
    assert("completed"@.len() == 9 && "completed"@[0] == 'c');
    assert("attempts"@.len() == 8 && "attempts"@[0] == 'a');
    assert("elapsed_ns"@.len() == 10 && "elapsed_ns"@[0] == 'e');
    assert("items_per_second"@.len() == 16 && "items_per_second"@[0] == 'i');
    assert("output_bytes"@.len() == 12 && "output_bytes"@[0] == 'o');
    let names = record_names();
    assert forall|i: int, j: int| 0 <= i < j < names.len() implies #[trigger] names[i]
        != #[trigger] names[j] by {
        assert(names[i].len() != names[j].len() || names[i][0] != names[j][0]);
    }
}

/// A field lacks what its name and its value lack.
pub proof fn lemma_field_lacks(name: Seq<char>, value: Seq<char>, c: char)
    requires
        lacks(name, c),
        lacks(value, c),
        c != '=',
    ensures
        lacks(field_text(name, value), c),
{
    reveal_strlit("=");
    let text = field_text(name, value);
    assert forall|i: int| 0 <= i < text.len() implies #[trigger] text[i] != c by {
        if i < name.len() {
            assert(text[i] == name[i]);
        } else if i > name.len() {
            assert(text[i] == value[i - name.len() - 1]);
        }
    }
}

/// Whether the numbers of a record fit their fields.
pub open spec fn work_fits(work: Work) -> bool {
    let wide = u64::MAX as nat;
    &&& work.seed <= wide && work.count <= wide && work.sessions <= wide
    &&& work.warmup_sessions <= wide && work.requested <= wide && work.completed <= wide
    &&& work.attempts <= wide && work.output_bytes <= wide
    &&& work.elapsed_ns <= u128::MAX
}

/// A record that has been written is read back: what a subject reports is what its runner
/// sees.
pub proof fn record_is_read_back(work: Work, speed: Seq<char>)
    requires
        work_fits(work),
        work.elapsed_ns > 0,
        lacks(work.mode, '\t') && lacks(work.mode, '\n'),
        lacks(speed, '\t') && lacks(speed, '\n'),
    ensures
        record_in(record_text(work, speed) + seq!['\n']) == Ok::<Work, Seq<char>>(work),
{
    let names = record_names();
    let values = record_values(work, speed);
    let version = FIXED_RECORD_VERSION@;
    let fields = seq![version] + named(names, values);
    let line = record_text(work, speed);
    lemma_record_names();
    assert forall|i: int| 0 <= i < values.len() implies lacks(#[trigger] values[i], '\t') && lacks(
        values[i],
        '\n',
    ) by {
        lemma_work_lacks(work, speed, i);
    }
    assert forall|i: int| 0 <= i < fields.len() implies lacks(#[trigger] fields[i], '\t') && lacks(
        fields[i],
        '\n',
    ) by {
        if i > 0 {
            assert(fields[i] == field_text(names[i - 1], values[i - 1]));
            assert(lacks(names[i - 1], '\t') && lacks(values[i - 1], '\t'));
            lemma_field_lacks(names[i - 1], values[i - 1], '\t');
            lemma_field_lacks(names[i - 1], values[i - 1], '\n');
        }
    }
    joined_parts_are_split(fields, '\t');
    lemma_joined_lacks(fields, seq!['\t'], '\n');
    lemma_record_end(work, speed);
    one_line_is_read_back(line);
    assert(seq![line][0] == line);
    assert(fields[0] == version);
    assert(fields.take(1 + names.len() as int) =~= fields);
    lemma_work_is_read_back(work, speed);
}

proof fn lemma_work_lacks(work: Work, speed: Seq<char>, i: int)
    requires
        0 <= i < record_values(work, speed).len(),
        lacks(work.mode, '\t') && lacks(work.mode, '\n'),
        lacks(speed, '\t') && lacks(speed, '\n'),
    ensures
        lacks(record_values(work, speed)[i], '\t'),
        lacks(record_values(work, speed)[i], '\n'),
{
    assert forall|n: nat| lacks(#[trigger] decimal(n), '\t') && lacks(decimal(n), '\n') by {
        lemma_decimal_lacks(n, '\t');
        lemma_decimal_lacks(n, '\n');
    }
}

/// A record ends with a digit.
proof fn lemma_record_end(work: Work, speed: Seq<char>)
    ensures
        record_text(work, speed).len() > 0,
        record_text(work, speed).last() != '\r',
{
    let fields = seq![FIXED_RECORD_VERSION@] + named(record_names(), record_values(work, speed));
    let digits = decimal(work.output_bytes);
    lemma_decimal_lacks(work.output_bytes, '\r');
    let last = fields.last();
    assert(last == field_text(record_names()[10], record_values(work, speed)[10]));
    assert(last.last() == digits.last());
    let line = record_text(work, speed);
    assert(line.last() == last.last());
    assert(digits[digits.len() - 1] != '\r');
}

/// Whether named fields can be told apart from each other and from what stands first.
pub open spec fn are_distinct(first: Seq<char>, names: Seq<Seq<char>>) -> bool {
    &&& lacks(first, '=')
    &&& forall|i: int| 0 <= i < names.len() ==> lacks(#[trigger] names[i], '=')
    &&& forall|i: int, j: int|
        0 <= i < j < names.len() ==> #[trigger] names[i] != #[trigger] names[j]
}

/// The value of each name is found among named fields.
pub proof fn lemma_named_value(
    first: Seq<char>,
    names: Seq<Seq<char>>,
    values: Seq<Seq<char>>,
    i: int,
)
    requires
        are_distinct(first, names),
        names.len() == values.len(),
        0 <= i < names.len(),
    ensures
        values_of(seq![first] + named(names, values), names[i]) == seq![values[i]],
        field_value(seq![first] + named(names, values), names[i]) == Ok::<Seq<char>, Seq<char>>(
            values[i],
        ),
{
    let fields = seq![first] + named(names, values);
    assert(lacks(names[i], '='));
    lemma_values_of_named(first, names, values, names[i], names.len() as int);
    assert(fields.take(1 + names.len() as int) =~= fields);
    assert(values_of(fields, names[i]) == seq![values[i]]);
}

proof fn lemma_named_number(
    first: Seq<char>,
    names: Seq<Seq<char>>,
    values: Seq<Seq<char>>,
    i: int,
    n: nat,
    max: nat,
)
    requires
        are_distinct(first, names),
        names.len() == values.len(),
        0 <= i < names.len(),
        values[i] == decimal(n),
        n <= max,
    ensures
        number_field(seq![first] + named(names, values), names[i], max) == Ok::<nat, Seq<char>>(n),
{
    lemma_named_value(first, names, values, i);
    number_is_read_back(n, max);
}

proof fn lemma_work_is_read_back(work: Work, speed: Seq<char>)
    requires
        work_fits(work),
    ensures
        work_in(
            seq![FIXED_RECORD_VERSION@] + named(record_names(), record_values(work, speed)),
        ) == Ok::<Work, Seq<char>>(work),
{
    let first = FIXED_RECORD_VERSION@;
    let names = record_names();
    let values = record_values(work, speed);
    let wide = u64::MAX as nat;
    lemma_record_names();
    assert(are_distinct(first, names));
    lemma_named_value(first, names, values, 0);
    lemma_named_number(first, names, values, 1, work.seed, wide);
    lemma_named_number(first, names, values, 2, work.count, wide);
    lemma_named_number(first, names, values, 3, work.sessions, wide);
    lemma_named_number(first, names, values, 4, work.warmup_sessions, wide);
    lemma_named_number(first, names, values, 5, work.requested, wide);
    lemma_named_number(first, names, values, 6, work.completed, wide);
    lemma_named_number(first, names, values, 7, work.attempts, wide);
    lemma_named_number(first, names, values, 8, work.elapsed_ns, u128::MAX as nat);
    lemma_named_number(first, names, values, 10, work.output_bytes, wide);
}

// ---------------------------------------------------------------------------
// The order of the fields.
// ---------------------------------------------------------------------------

/// The fields that `fields` hold behind the version, but for those that give a throughput.
pub open spec fn counted_fields(fields: Seq<Seq<char>>) -> Seq<Seq<char>> {
    fields.skip(1).filter(|field: Seq<char>| behind(field, "items_per_second"@ + "="@) is None)
}

/// A record says the same in whatever order its fields stand behind the version. The
/// throughput that it gives does not count: it may be any text, or be missing.
pub proof fn field_order_does_not_matter(text: Seq<char>, other: Seq<char>)
    requires
        lines_of(text).len() == 1,
        lines_of(other).len() == 1,
        split_on(lines_of(text)[0], '\t')[0] == split_on(lines_of(other)[0], '\t')[0],
        counted_fields(split_on(lines_of(text)[0], '\t')).to_multiset() == counted_fields(
            split_on(lines_of(other)[0], '\t'),
        ).to_multiset(),
    ensures
        record_in(text) == record_in(other),
{
    let a = split_on(lines_of(text)[0], '\t');
    let b = split_on(lines_of(other)[0], '\t');
    if a[0] == FIXED_RECORD_VERSION@ {
        let names = record_names();
        assert forall|i: int| 0 <= i < names.len() && i != 9 implies field_value(
            a,
            #[trigger] names[i],
        ) == field_value(b, names[i]) by {
            lemma_field_in_any_order(a, b, i);
        }
        assert(field_value(a, names[0]) == field_value(b, names[0]));
        assert(field_value(a, names[1]) == field_value(b, names[1]));
        assert(field_value(a, names[2]) == field_value(b, names[2]));
        assert(field_value(a, names[3]) == field_value(b, names[3]));
        assert(field_value(a, names[4]) == field_value(b, names[4]));
        assert(field_value(a, names[5]) == field_value(b, names[5]));
        assert(field_value(a, names[6]) == field_value(b, names[6]));
        assert(field_value(a, names[7]) == field_value(b, names[7]));
        assert(field_value(a, names[8]) == field_value(b, names[8]));
        assert(field_value(a, names[10]) == field_value(b, names[10]));
        assert(work_in(a) == work_in(b));
    }
}

/// Two lists with the same counted fields give the same value for each name that counts.
proof fn lemma_field_in_any_order(a: Seq<Seq<char>>, b: Seq<Seq<char>>, i: int)
    requires
        a.len() > 0,
        b.len() > 0,
        a[0] == FIXED_RECORD_VERSION@,
        b[0] == FIXED_RECORD_VERSION@,
        counted_fields(a).to_multiset() == counted_fields(b).to_multiset(),
        0 <= i < record_names().len(),
        i != 9,
    ensures
        field_value(a, record_names()[i]) == field_value(b, record_names()[i]),
{
    let key = record_names()[i];
    let x = values_of(a, key);
    let y = values_of(b, key);
    lemma_record_names();
    assert(key != record_names()[9]);
    assert forall|v: Seq<char>| #[trigger] x.to_multiset().count(v) == y.to_multiset().count(v) by {
        lemma_counted_field(a, i, v);
        lemma_counted_field(b, i, v);
    }
    assert(x.to_multiset() =~= y.to_multiset());
    x.to_multiset_ensures();
    y.to_multiset_ensures();
    assert(x.len() == y.len());
    if x.len() == 1 {
        assert(x.contains(x[0]));
        assert(x.to_multiset().count(x[0]) > 0);
        assert(y.to_multiset().count(x[0]) > 0);
        assert(y.contains(x[0]));
    }
}

/// A name that counts has a value as often as its counted field says so.
proof fn lemma_counted_field(fields: Seq<Seq<char>>, i: int, value: Seq<char>)
    requires
        fields.len() > 0,
        fields[0] == FIXED_RECORD_VERSION@,
        0 <= i < record_names().len(),
        i != 9,
    ensures
        values_of(fields, record_names()[i]).to_multiset().count(value) == counted_fields(
            fields,
        ).to_multiset().count(field_text(record_names()[i], value)),
{
    let key = record_names()[i];
    let speed = record_names()[9];
    let field = field_text(key, value);
    lemma_record_names();
    assert(key != speed);
    lemma_field_key(key, value, speed);
    lemma_field_key(key, value, key);
    lemma_no_field(fields[0], key);
    lemma_value_count(fields.skip(1), key, value);
    lemma_first_value(fields, key);
    lemma_filtered_count(
        fields.skip(1),
        |field: Seq<char>| behind(field, "items_per_second"@ + "="@) is None,
        field,
    );
}

/// What stands first and is no field for `key` gives no value.
proof fn lemma_first_value(fields: Seq<Seq<char>>, key: Seq<char>)
    requires
        fields.len() > 0,
        behind(fields[0], key + "="@) is None,
    ensures
        values_of(fields, key) == values_of(fields.skip(1), key),
    decreases fields.len(),
{
    let rest = fields.skip(1);
    if rest.len() == 0 {
        assert(values_of(fields.drop_last(), key) == Seq::<Seq<char>>::empty());
    } else {
        lemma_first_value(fields.drop_last(), key);
        assert(fields.drop_last().skip(1) =~= rest.drop_last());
    }
}

/// How often a value is given for `key`.
proof fn lemma_value_count(fields: Seq<Seq<char>>, key: Seq<char>, value: Seq<char>)
    ensures
        values_of(fields, key).to_multiset().count(value) == fields.to_multiset().count(
            field_text(key, value),
        ),
    decreases fields.len(),
{
    let field = field_text(key, value);
    let prefix = key + "="@;
    if fields.len() == 0 {
        assert(fields =~= Seq::empty());
        fields.to_multiset_ensures();
        values_of(fields, key).to_multiset_ensures();
    } else {
        let most = fields.drop_last();
        let last = fields.last();
        lemma_value_count(most, key, value);
        assert(fields =~= most.push(last));
        most.to_multiset_ensures();
        values_of(most, key).to_multiset_ensures();
        assert(field =~= prefix + value);
        assert(field.take(prefix.len() as int) =~= prefix);
        assert(field.skip(prefix.len() as int) =~= value);
        match behind(last, prefix) {
            Some(v) => {
                assert(last =~= prefix + v);
            },
            None => {},
        }
    }
}

/// A field that is kept is kept as often as it is there.
proof fn lemma_filtered_count(
    fields: Seq<Seq<char>>,
    keeps: spec_fn(Seq<char>) -> bool,
    field: Seq<char>,
)
    requires
        keeps(field),
    ensures
        fields.filter(keeps).to_multiset().count(field) == fields.to_multiset().count(field),
    decreases fields.len(),
{
    reveal(Seq::filter);
    if fields.len() > 0 {
        let most = fields.drop_last();
        lemma_filtered_count(most, keeps, field);
        assert(fields =~= most.push(fields.last()));
        most.to_multiset_ensures();
        most.filter(keeps).to_multiset_ensures();
    }
}

// ---------------------------------------------------------------------------
// Schedules.
// ---------------------------------------------------------------------------

/// The state of the schedule generator behind `state`.
pub open spec fn advanced(state: u64) -> u64 {
    state.wrapping_add(0x9e37_79b9_7f4a_7c15)
}

/// The number that the schedule generator gives at `state`.
pub open spec fn mixed(state: u64) -> u64 {
    let a = (state ^ (state >> 30)).wrapping_mul(0xbf58_476d_1ce4_e5b9);
    let b = (a ^ (a >> 27)).wrapping_mul(0x94d0_49bb_1331_11eb);
    b ^ (b >> 31)
}

/// A schedule generator that is reproducible from its seed (SplitMix64).
pub struct ScheduleRng(u64);

impl View for ScheduleRng {
    type V = u64;

    closed spec fn view(&self) -> u64 {
        self.0
    }
}

impl ScheduleRng {
    pub fn new(seed: u64) -> (rng: Self)
        ensures
            rng@ == seed,
    {
        Self(seed)
    }

    pub fn next_u64(&mut self) -> (value: u64)
        ensures
            final(self)@ == advanced(old(self)@),
            value == mixed(final(self)@),
    {
        self.0 = self.0.wrapping_add(0x9e37_79b9_7f4a_7c15);
        let mut value: u64 = self.0;
        value = (value ^ (value >> 30)).wrapping_mul(0xbf58_476d_1ce4_e5b9);
        value = (value ^ (value >> 27)).wrapping_mul(0x94d0_49bb_1331_11eb);
        value ^ (value >> 31)
    }
}

/// The state of a generator seeded with `seed` after `steps` steps.
pub open spec fn state_after(seed: u64, steps: nat) -> u64
    decreases steps,
{
    if steps == 0 {
        seed
    } else {
        advanced(state_after(seed, (steps - 1) as nat))
    }
}

/// The order of block `block` of the schedule of `seed`, counted from zero.
pub open spec fn order_at(seed: u64, block: int) -> BlockOrder {
    if mixed(state_after(seed, (block + 1) as nat)) & 1 == 0 {
        BlockOrder::Abba
    } else {
        BlockOrder::Baab
    }
}

/// The schedule of `blocks` blocks of `seed`.
pub open spec fn schedule_of(blocks: nat, seed: u64) -> Seq<BlockOrder> {
    Seq::new(blocks, |block: int| order_at(seed, block))
}

/// Make a schedule of `blocks` randomized orders from a seed.
pub fn randomized_schedule(blocks: usize, seed: u64) -> (schedule: Vec<BlockOrder>)
    ensures
        schedule@ == schedule_of(blocks as nat, seed),
{
    let mut rng = ScheduleRng::new(seed);
    let mut schedule: Vec<BlockOrder> = Vec::new();
    let mut block: usize = 0;
    while block < blocks
        invariant
            block <= blocks,
            rng@ == state_after(seed, block as nat),
            schedule@ == schedule_of(block as nat, seed),
        decreases blocks - block,
    {
        let value: u64 = rng.next_u64();
        if value & 1 == 0 {
            schedule.push(BlockOrder::Abba);
        } else {
            schedule.push(BlockOrder::Baab);
        }
        block += 1;
        assert(schedule@ =~= schedule_of(block as nat, seed));
    }
    schedule
}

/// A longer schedule of a seed begins with the shorter one.
pub proof fn schedules_extend(fewer: nat, more: nat, seed: u64)
    requires
        fewer <= more,
    ensures
        schedule_of(more, seed).take(fewer as int) == schedule_of(fewer, seed),
{
    assert(schedule_of(more, seed).take(fewer as int) =~= schedule_of(fewer, seed));
}

/// The first order of a schedule is ABBA if and only if the first number of the generator is
/// even, and the schedule goes on as the schedule of the next state of the generator begins.
pub proof fn schedules_go_on(blocks: nat, seed: u64)
    ensures
        schedule_of(blocks + 1, seed).skip(1) == schedule_of(blocks, advanced(seed)),
        advanced(seed) as int == (seed + 0x9e37_79b9_7f4a_7c15) % 0x1_0000_0000_0000_0000,
        schedule_of(blocks + 1, seed)[0] == (if mixed(advanced(seed)) % 2 == 0 {
            BlockOrder::Abba
        } else {
            BlockOrder::Baab
        }),
{
    let first = mixed(advanced(seed));
    assert(first & 1 == first % 2) by (bit_vector);
    assert(state_after(seed, 0) == seed);
    assert(state_after(seed, 1) == advanced(seed));
    let later = schedule_of(blocks + 1, seed).skip(1);
    let next = schedule_of(blocks, advanced(seed));
    assert forall|i: int| 0 <= i < blocks implies later[i] == #[trigger] next[i] by {
        lemma_states_go_on(seed, (i + 1) as nat);
    }
    assert(later =~= next);
}

proof fn lemma_states_go_on(seed: u64, steps: nat)
    ensures
        state_after(advanced(seed), steps) == state_after(seed, steps + 1),
    decreases steps,
{
    if steps > 0 {
        lemma_states_go_on(seed, (steps - 1) as nat);
    } else {
        assert(state_after(seed, 0) == seed);
        assert(state_after(seed, 1) == advanced(state_after(seed, 0)));
    }
}

// ---------------------------------------------------------------------------
// What a record says.
// ---------------------------------------------------------------------------

/// Whether exactly one of `fields` is for `key`, and gives it `value`.
pub open spec fn gives_once(fields: Seq<Seq<char>>, key: Seq<char>, value: Seq<char>) -> bool {
    exists|i: int|
        0 <= i < fields.len() && #[trigger] fields[i] == key + "="@ + value && forall|j: int|
            0 <= j < fields.len() && j != i ==> !begins_with(#[trigger] fields[j], key + "="@)
}

/// Whether exactly one of `fields` is for `key`, and gives it the number `n`.
pub open spec fn gives_number(fields: Seq<Seq<char>>, key: Seq<char>, n: nat, max: nat) -> bool {
    exists|value: Seq<char>| #[trigger]
        gives_once(fields, key, value) && number_in(value, max) == Some(n)
}

proof fn lemma_no_value(fields: Seq<Seq<char>>, key: Seq<char>)
    ensures
        values_of(fields, key).len() == 0 <==> forall|j: int|
            0 <= j < fields.len() ==> !begins_with(#[trigger] fields[j], key + "="@),
    decreases fields.len(),
{
    if fields.len() > 0 {
        let most = fields.drop_last();
        lemma_no_value(most, key);
        assert(fields.last() == fields[fields.len() - 1]);
        if forall|j: int| 0 <= j < fields.len() ==> !begins_with(#[trigger] fields[j], key + "="@) {
            assert forall|j: int| 0 <= j < most.len() implies !begins_with(
                #[trigger] most[j],
                key + "="@,
            ) by {
                assert(most[j] == fields[j]);
            }
        }
        if values_of(fields, key).len() == 0 {
            assert forall|j: int| 0 <= j < fields.len() implies !begins_with(
                #[trigger] fields[j],
                key + "="@,
            ) by {
                if j < most.len() {
                    assert(most[j] == fields[j]);
                }
            }
        }
    }
}

proof fn lemma_prefix(text: Seq<char>, prefix: Seq<char>, value: Seq<char>)
    ensures
        behind(text, prefix) == Some(value) <==> text == prefix + value,
{
    if text == prefix + value {
        assert(text.take(prefix.len() as int) =~= prefix);
        assert(text.skip(prefix.len() as int) =~= value);
    }
    if behind(text, prefix) == Some(value) {
        assert(text =~= text.take(prefix.len() as int) + text.skip(prefix.len() as int));
    }
}

/// A value is the value of a key if and only if exactly one field gives it.
pub proof fn values_are_given_once(fields: Seq<Seq<char>>, key: Seq<char>, value: Seq<char>)
    ensures
        field_value(fields, key) == Ok::<Seq<char>, Seq<char>>(value) <==> gives_once(
            fields,
            key,
            value,
        ),
    decreases fields.len(),
{
    let prefix = key + "="@;
    if fields.len() > 0 {
        let most = fields.drop_last();
        let n = fields.len() - 1;
        values_are_given_once(most, key, value);
        lemma_no_value(most, key);
        lemma_prefix(fields.last(), prefix, value);
        assert(fields.last() == fields[n]);
        if gives_once(fields, key, value) {
            let i = choose|i: int|
                0 <= i < fields.len() && #[trigger] fields[i] == prefix + value && forall|j: int|
                    0 <= j < fields.len() && j != i ==> !begins_with(#[trigger] fields[j], prefix);
            lemma_prefix(fields[i], prefix, value);
            if i == n {
                assert forall|j: int| 0 <= j < most.len() implies !begins_with(
                    #[trigger] most[j],
                    prefix,
                ) by {
                    assert(most[j] == fields[j]);
                }
            } else {
                assert(!begins_with(fields[n], prefix));
                assert(most[i] == prefix + value);
                assert forall|j: int| 0 <= j < most.len() && j != i implies !begins_with(
                    #[trigger] most[j],
                    prefix,
                ) by {
                    assert(most[j] == fields[j]);
                }
                assert(gives_once(most, key, value));
            }
        }
        if field_value(fields, key) == Ok::<Seq<char>, Seq<char>>(value) {
            if begins_with(fields[n], prefix) {
                assert(values_of(most, key).len() == 0);
                assert(fields[n] == prefix + value);
                assert forall|j: int| 0 <= j < fields.len() && j != n implies !begins_with(
                    #[trigger] fields[j],
                    prefix,
                ) by {
                    assert(most[j] == fields[j]);
                }
            } else {
                assert(gives_once(most, key, value));
                let i = choose|i: int|
                    0 <= i < most.len() && #[trigger] most[i] == prefix + value && forall|j: int|
                        0 <= j < most.len() && j != i ==> !begins_with(#[trigger] most[j], prefix);
                assert(fields[i] == prefix + value);
                assert forall|j: int| 0 <= j < fields.len() && j != i implies !begins_with(
                    #[trigger] fields[j],
                    prefix,
                ) by {
                    if j < n {
                        assert(most[j] == fields[j]);
                    }
                }
            }
        }
    }
}

proof fn lemma_gives_number(fields: Seq<Seq<char>>, key: Seq<char>, n: nat, max: nat)
    ensures
        number_field(fields, key, max) == Ok::<nat, Seq<char>>(n) <==> gives_number(
            fields,
            key,
            n,
            max,
        ),
{
    if number_field(fields, key, max) == Ok::<nat, Seq<char>>(n) {
        let value = field_value(fields, key)->Ok_0;
        values_are_given_once(fields, key, value);
        assert(gives_once(fields, key, value));
    }
    if gives_number(fields, key, n, max) {
        let value = choose|value: Seq<char>| #[trigger]
            gives_once(fields, key, value) && number_in(value, max) == Some(n);
        values_are_given_once(fields, key, value);
    }
}

/// A text is read as a record if and only if it is one line, begins with the version, and gives
/// each of the ten fields exactly once, each number in its range and the elapsed time above
/// zero; and the record is what these fields give.
pub proof fn records_say_what_their_fields_give(text: Seq<char>, work: Work)
    ensures
        record_in(text) == Ok::<Work, Seq<char>>(work) <==> {
            let fields = split_on(lines_of(text)[0], '\t');
            let wide = 0xffff_ffff_ffff_ffff as nat;
            &&& lines_of(text).len() == 1
            &&& fields[0] == "optiwork-fixed-v1"@
            &&& gives_once(fields, "mode"@, work.mode)
            &&& gives_number(fields, "seed"@, work.seed, wide)
            &&& gives_number(fields, "count"@, work.count, wide)
            &&& gives_number(fields, "sessions"@, work.sessions, wide)
            &&& gives_number(fields, "warmup_sessions"@, work.warmup_sessions, wide)
            &&& gives_number(fields, "requested"@, work.requested, wide)
            &&& gives_number(fields, "completed"@, work.completed, wide)
            &&& gives_number(fields, "attempts"@, work.attempts, wide)
            &&& gives_number(fields, "elapsed_ns"@, work.elapsed_ns, u128::MAX as nat)
            &&& gives_number(fields, "output_bytes"@, work.output_bytes, wide)
            &&& work.elapsed_ns > 0
        },
{
    let fields = split_on(lines_of(text)[0], '\t');
    let wide = 0xffff_ffff_ffff_ffff as nat;
    values_are_given_once(fields, "mode"@, work.mode);
    lemma_gives_number(fields, "seed"@, work.seed, wide);
    lemma_gives_number(fields, "count"@, work.count, wide);
    lemma_gives_number(fields, "sessions"@, work.sessions, wide);
    lemma_gives_number(fields, "warmup_sessions"@, work.warmup_sessions, wide);
    lemma_gives_number(fields, "requested"@, work.requested, wide);
    lemma_gives_number(fields, "completed"@, work.completed, wide);
    lemma_gives_number(fields, "attempts"@, work.attempts, wide);
    lemma_gives_number(fields, "elapsed_ns"@, work.elapsed_ns, u128::MAX as nat);
    lemma_gives_number(fields, "output_bytes"@, work.output_bytes, wide);
}

/// Different states give different numbers, and lead to different states: a generator comes to
/// no number twice before it has come to all.
#[verifier::spinoff_prover]
#[verifier::rlimit(40)]
pub proof fn states_give_different_numbers(a: u64, b: u64)
    ensures
        mixed(a) == mixed(b) <==> a == b,
        advanced(a) == advanced(b) <==> a == b,
{
    if mixed(a) == mixed(b) {
        let x = (a ^ (a >> 30)).wrapping_mul(0xbf58_476d_1ce4_e5b9);
        let y = (b ^ (b >> 30)).wrapping_mul(0xbf58_476d_1ce4_e5b9);
        let u = (x ^ (x >> 27)).wrapping_mul(0x94d0_49bb_1331_11eb);
        let v = (y ^ (y >> 27)).wrapping_mul(0x94d0_49bb_1331_11eb);
        assert(u == v) by (bit_vector)
            requires
                u ^ (u >> 31) == v ^ (v >> 31),
        ;
        lemma_product_alone(
            x ^ (x >> 27),
            y ^ (y >> 27),
            0x94d0_49bb_1331_11eb,
            0x3196_42b2_d24d_8ec3,
            0x1cd3_36ed_a85f_1453,
        );
        assert(x == y) by (bit_vector)
            requires
                x ^ (x >> 27) == y ^ (y >> 27),
        ;
        lemma_product_alone(
            a ^ (a >> 30),
            b ^ (b >> 30),
            0xbf58_476d_1ce4_e5b9,
            0x96de_1b17_3f11_9089,
            0x70c3_bca7_8f27_f46c,
        );
        assert(a == b) by (bit_vector)
            requires
                a ^ (a >> 30) == b ^ (b >> 30),
        ;
    }
}

/// A factor that has an inverse keeps different numbers apart.
#[verifier::spinoff_prover]
#[verifier::rlimit(40)]
proof fn lemma_product_alone(x: u64, y: u64, factor: u64, inverse: u64, rest: u64)
    requires
        factor * inverse == 1 + rest * 0x1_0000_0000_0000_0000,
        x.wrapping_mul(factor) == y.wrapping_mul(factor),
    ensures
        x == y,
{
    let m = 0x1_0000_0000_0000_0000int;
    let f = factor as int;
    let i = inverse as int;
    let q = rest as int;
    let d = x - y;
    let k = (x * f) / m - (y * f) / m;
    assert((x * f) % m == (y * f) % m);
    assert(x * f - y * f == k * m) by (nonlinear_arith)
        requires
            (x * f) % m == (y * f) % m,
            k == (x * f) / m - (y * f) / m,
            m > 0,
    ;
    assert(d * f == k * m) by (nonlinear_arith)
        requires
            x * f - y * f == k * m,
            d == x - y,
    ;
    assert(d == m * (k * i - q * d)) by (nonlinear_arith)
        requires
            d * f == k * m,
            f * i == 1 + q * m,
    ;
    let n = k * i - q * d;
    assert(n == 0) by (nonlinear_arith)
        requires
            d == m * n,
            -m < d < m,
            m > 0,
    ;
}

}
