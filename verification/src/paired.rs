//! Running a paired comparison: what each process is told, what it must answer, and what is
//! reported.
use crate::arguments::{
    argv_of, binary_of, blob_of, is_sound, requested, Arguments, Design,
};
use crate::record::{parse_fixed_record, record_in, BlockOrder, FixedRecord, Label, Work};
use crate::text::{
    all_decimal, begins_with, compact_output, compacted, decimal, join_texts, joined,
    lemma_views_push, list_of_texts, lossy_text, number_text, number_texts, same_text, texts_list,
    utf8_text, views,
};
use vstd::prelude::*;
use vstd::utf8::{decode_utf8, valid_utf8};

verus! {

// ---------------------------------------------------------------------------
// The plan.
// ---------------------------------------------------------------------------

/// Whether one program is compared with itself or two with each other.
pub open spec fn experiment_of(design: Design) -> Seq<char> {
    if design.calibration {
        "AA"@
    } else {
        "AB"@
    }
}

/// What a comparison may be used for.
pub open spec fn scope_of(design: Design) -> Seq<char> {
    if design.calibration {
        "calibration"@
    } else if design.held_out {
        "held_out_confirmation"@
    } else {
        "exploratory_per_candidate"@
    }
}

/// How a plan shows the arguments of the two programs.
pub open spec fn transport_of(design: Design) -> Seq<char> {
    if design.direct {
        " argument_transport=direct baseline_argv="@ + list_of_texts(
            argv_of(design, Label::Baseline),
        ) + " candidate_argv="@ + list_of_texts(argv_of(design, Label::Candidate))
    } else {
        let both = " subject_args=\""@ + design.subject_args + "\""@;
        match (design.baseline_args, design.candidate_args) {
            (Some(b), Some(c)) => both + " baseline_args=\""@ + b + "\" candidate_args=\""@ + c
                + "\""@,
            _ => both,
        }
    }
}

/// Where the order of the blocks comes from.
pub open spec fn order_source_of(design: Design) -> Seq<char> {
    match design.order_seed {
        Some(seed) => "random:"@ + decimal(seed as nat),
        None => "explicit"@,
    }
}

/// The names of orders.
pub open spec fn order_names(schedule: Seq<BlockOrder>) -> Seq<Seq<char>> {
    schedule.map_values(|o: BlockOrder| o.name())
}

/// A schedule as it is shown.
pub open spec fn schedule_shown(schedule: Seq<BlockOrder>) -> Seq<char> {
    joined(order_names(schedule), ","@)
}

/// Seeds as they are shown.
pub open spec fn seeds_shown(seeds: Seq<u64>) -> Seq<char> {
    joined(all_decimal(seeds), ","@)
}

/// The plan as it is announced before any process starts.
pub open spec fn plan_of(design: Design) -> Seq<char> {
    "PLAN experiment="@ + experiment_of(design) + " scope="@ + scope_of(design) + " mode="@
        + design.measure + transport_of(design) + " count="@ + decimal(design.count as nat)
        + " sessions="@ + decimal(design.sessions as nat) + " blocks="@ + decimal(
        design.schedule.len(),
    ) + " order_source="@ + order_source_of(design) + " schedule="@ + schedule_shown(design.schedule)
        + " seeds="@ + seeds_shown(design.seeds)
}

/// The kind of experiment.
pub fn experiment(arguments: &Arguments) -> (name: &'static str)
    ensures
        name@ == experiment_of(arguments@),
{
    if arguments.calibration {
        "AA"
    } else {
        "AB"
    }
}

/// The scope of the comparison.
pub fn scope(arguments: &Arguments) -> (name: &'static str)
    ensures
        name@ == scope_of(arguments@),
{
    if arguments.calibration {
        "calibration"
    } else if arguments.held_out {
        "held_out_confirmation"
    } else {
        "exploratory_per_candidate"
    }
}

fn transport(arguments: &Arguments) -> (text: String)
    ensures
        text@ == transport_of(arguments@),
{
    if arguments.direct {
        let baseline = texts_list(arguments.argv_for(Label::Baseline));
        let candidate = texts_list(arguments.argv_for(Label::Candidate));
        " argument_transport=direct baseline_argv=".to_owned().concat(baseline.as_str()).concat(
            " candidate_argv=",
        ).concat(candidate.as_str())
    } else {
        let both = " subject_args=\"".to_owned().concat(arguments.subject_args.as_str()).concat(
            "\"",
        );
        match (&arguments.baseline_args, &arguments.candidate_args) {
            (Some(b), Some(c)) => both.concat(" baseline_args=\"").concat(b.as_str()).concat(
                "\" candidate_args=\"",
            ).concat(c.as_str()).concat("\""),
            _ => both,
        }
    }
}

fn order_source(arguments: &Arguments) -> (text: String)
    ensures
        text@ == order_source_of(arguments@),
{
    match arguments.order_seed {
        Some(seed) => "random:".to_owned().concat(number_text(seed as u128).as_str()),
        None => "explicit".to_owned(),
    }
}

pub(crate) fn seeds_text(seeds: &Vec<u64>) -> (text: String)
    ensures
        text@ == seeds_shown(seeds@),
{
    join_texts(&number_texts(seeds), ",")
}

pub(crate) fn schedule_text(schedule: &Vec<BlockOrder>) -> (text: String)
    ensures
        text@ == schedule_shown(schedule@),
{
    let mut names: Vec<String> = Vec::new();
    let ghost whole = order_names(schedule@);
    let mut i: usize = 0;
    assert(views(names@) =~= whole.take(0));
    while i < schedule.len()
        invariant
            i <= schedule.len(),
            whole == order_names(schedule@),
            views(names@) == whole.take(i as int),
        decreases schedule.len() - i,
    {
        let name = schedule[i].as_str().to_owned();
        proof {
            lemma_views_push(names@, name);
            assert(whole.take(i + 1) =~= whole.take(i as int).push(name@));
        }
        names.push(name);
        i += 1;
    }
    assert(whole.take(whole.len() as int) =~= whole);
    join_texts(&names, ",")
}

/// Write the plan.
pub fn plan_line(arguments: &Arguments) -> (line: String)
    ensures
        line@ == plan_of(arguments@),
{
    "PLAN experiment=".to_owned().concat(experiment(arguments)).concat(" scope=").concat(
        scope(arguments),
    ).concat(" mode=").concat(arguments.measure.as_str()).concat(
        transport(arguments).as_str(),
    ).concat(" count=").concat(number_text(arguments.count as u128).as_str()).concat(
        " sessions=",
    ).concat(number_text(arguments.sessions as u128).as_str()).concat(" blocks=").concat(
        number_text(arguments.schedule.len() as u128).as_str(),
    ).concat(" order_source=").concat(order_source(arguments).as_str()).concat(" schedule=").concat(
        schedule_text(&arguments.schedule).as_str(),
    ).concat(" seeds=").concat(seeds_text(&arguments.seeds).as_str())
}

// ---------------------------------------------------------------------------
// One observation.
// ---------------------------------------------------------------------------

/// The command-line arguments of the program of `label` for the work of `seed`.
pub open spec fn command_of(design: Design, label: Label, seed: u64) -> Seq<Seq<char>> {
    let work = seq![
        "--measure"@,
        design.measure,
        "--seed"@,
        decimal(seed as nat),
        "--sessions"@,
        decimal(design.sessions as nat),
        "--count"@,
        decimal(design.count as nat),
    ];
    if design.direct {
        work + argv_of(design, label)
    } else {
        work + seq!["--subject-args"@, blob_of(design, label)]
    }
}

/// Write the command line of one observation.
pub fn command_args(arguments: &Arguments, label: Label, seed: u64) -> (args: Vec<String>)
    ensures
        views(args@) == command_of(arguments@, label, seed),
{
    let mut args: Vec<String> = Vec::new();
    args.push("--measure".to_owned());
    args.push(arguments.measure.as_str().to_owned());
    args.push("--seed".to_owned());
    args.push(number_text(seed as u128));
    args.push("--sessions".to_owned());
    args.push(number_text(arguments.sessions as u128));
    args.push("--count".to_owned());
    args.push(number_text(arguments.count as u128));
    let ghost work = seq![
        "--measure"@,
        arguments.measure@,
        "--seed"@,
        decimal(seed as nat),
        "--sessions"@,
        decimal(arguments.sessions as nat),
        "--count"@,
        decimal(arguments.count as nat),
    ];
    assert(views(args@) =~= work);
    if arguments.direct {
        let own = arguments.argv_for(label);
        let ghost more = views(own@);
        let mut i: usize = 0;
        assert(work + more.take(0) =~= work);
        while i < own.len()
            invariant
                i <= own.len(),
                more == views(own@),
                views(args@) == work + more.take(i as int),
            decreases own.len() - i,
        {
            let text = own[i].as_str().to_owned();
            proof {
                lemma_views_push(args@, text);
                assert(work + more.take(i + 1) =~= (work + more.take(i as int)).push(text@));
            }
            args.push(text);
            i += 1;
        }
        assert(more.take(more.len() as int) =~= more);
    } else {
        args.push("--subject-args".to_owned());
        args.push(arguments.args_for(label).to_owned());
        assert(views(args@) =~= work + seq!["--subject-args"@, blob_of(arguments@, label)]);
    }
    args
}

/// How a process ended.
pub enum Finish {
    /// It did not start; what the system said.
    NotRun(String),
    /// It was stopped for running too long.
    TimedOut,
    /// It was stopped for writing too much to the named stream.
    Overflowed(String),
    /// It failed; its status and what it wrote as diagnostics.
    Failed(String, Vec<u8>),
    /// It succeeded; what it wrote.
    Wrote(Vec<u8>),
}

/// Whether the record is of the work that was asked for.
pub open spec fn is_asked_work(design: Design, seed: u64, work: Work) -> bool {
    &&& work.seed == seed
    &&& work.count == design.count
    &&& work.sessions == design.sessions
    &&& work.warmup_sessions == 1
    &&& work.requested == requested(design)
    &&& work.completed == requested(design)
}

/// The record of an observation, or why what the program wrote is none.
pub open spec fn checked(design: Design, label: Label, seed: u64, output: Seq<char>) -> Result<
    Work,
    Seq<char>,
> {
    let binary = binary_of(design, label);
    match record_in(output) {
        Err(e) => Err(e),
        Ok(work) => if work.mode != design.measure {
            Err(binary + " reported mode "@ + work.mode + " instead of "@ + design.measure)
        } else if requested(design) > u64::MAX {
            Err("count times sessions overflowed"@)
        } else if !is_asked_work(design, seed, work) {
            Err(
                binary + " reported mismatched work (seed="@ + decimal(work.seed) + ", count="@
                    + decimal(work.count) + ", sessions="@ + decimal(work.sessions)
                    + ", warmup_sessions="@ + decimal(work.warmup_sessions) + ", requested="@
                    + decimal(work.requested) + ", completed="@ + decimal(work.completed) + ")"@,
            )
        } else {
            Ok(work)
        },
    }
}

/// The record of an observation, or why it is invalid.
pub open spec fn observed(design: Design, label: Label, seed: u64, finish: Finish) -> Result<
    Work,
    Seq<char>,
> {
    let binary = binary_of(design, label);
    match finish {
        Finish::NotRun(why) => Err("could not run "@ + binary + ": "@ + why@),
        Finish::TimedOut => Err(
            binary + " timed out after "@ + decimal(design.timeout_ms as nat) + " ms"@,
        ),
        Finish::Overflowed(stream) => Err(
            binary + " "@ + stream@ + " exceeded --max-output-bytes limit of "@ + decimal(
                design.max_output_bytes as nat,
            ),
        ),
        Finish::Failed(status, diagnostics) => Err(
            binary + " exited with "@ + status@ + "; stderr: "@ + compacted(
                lossy_text(diagnostics@),
            ),
        ),
        Finish::Wrote(bytes) => if valid_utf8(bytes@) {
            checked(design, label, seed, decode_utf8(bytes@))
        } else {
            Err(binary + " emitted non-UTF-8 output"@)
        },
    }
}

/// Check what a program wrote against the work that it was told to do.
pub fn check_output(arguments: &Arguments, label: Label, seed: u64, output: &str) -> (record: Result<
    FixedRecord,
    String,
>)
    ensures
        match record {
            Ok(r) => checked(arguments@, label, seed, output@) == Ok::<Work, Seq<char>>(r@),
            Err(e) => checked(arguments@, label, seed, output@) == Err::<Work, Seq<char>>(e@),
        },
{
    let binary = arguments.binary_for(label);
    let record = match parse_fixed_record(output) {
        Ok(record) => record,
        Err(e) => return Err(e),
    };
    if !same_text(record.mode.as_str(), arguments.measure.as_str()) {
        return Err(
            binary.to_owned().concat(" reported mode ").concat(record.mode.as_str()).concat(
                " instead of ",
            ).concat(arguments.measure.as_str()),
        );
    }
    let work: u64 = match arguments.count.checked_mul(arguments.sessions) {
        Some(work) => work,
        None => return Err("count times sessions overflowed".to_owned()),
    };
    if record.seed != seed || record.count != arguments.count || record.sessions
        != arguments.sessions || record.warmup_sessions != 1 || record.requested != work
        || record.completed != work {
        return Err(
            binary.to_owned().concat(" reported mismatched work (seed=").concat(
                number_text(record.seed as u128).as_str(),
            ).concat(", count=").concat(number_text(record.count as u128).as_str()).concat(
                ", sessions=",
            ).concat(number_text(record.sessions as u128).as_str()).concat(
                ", warmup_sessions=",
            ).concat(number_text(record.warmup_sessions as u128).as_str()).concat(
                ", requested=",
            ).concat(number_text(record.requested as u128).as_str()).concat(
                ", completed=",
            ).concat(number_text(record.completed as u128).as_str()).concat(")"),
        );
    }
    Ok(record)
}

/// Judge how the process of an observation ended. Everything but a record of the work that
/// was asked for makes the observation invalid.
pub fn observe(arguments: &Arguments, label: Label, seed: u64, finish: &Finish) -> (record: Result<
    FixedRecord,
    String,
>)
    ensures
        match record {
            Ok(r) => observed(arguments@, label, seed, *finish) == Ok::<Work, Seq<char>>(r@),
            Err(e) => observed(arguments@, label, seed, *finish) == Err::<Work, Seq<char>>(e@),
        },
{
    let binary = arguments.binary_for(label);
    match finish {
        Finish::NotRun(why) => Err(
            "could not run ".to_owned().concat(binary).concat(": ").concat(why.as_str()),
        ),
        Finish::TimedOut => Err(
            binary.to_owned().concat(" timed out after ").concat(
                number_text(arguments.timeout_ms as u128).as_str(),
            ).concat(" ms"),
        ),
        Finish::Overflowed(stream) => Err(
            binary.to_owned().concat(" ").concat(stream.as_str()).concat(
                " exceeded --max-output-bytes limit of ",
            ).concat(number_text(arguments.max_output_bytes as u128).as_str()),
        ),
        Finish::Failed(status, diagnostics) => Err(
            binary.to_owned().concat(" exited with ").concat(status.as_str()).concat(
                "; stderr: ",
            ).concat(compact_output(diagnostics.as_slice()).as_str()),
        ),
        Finish::Wrote(bytes) => match utf8_text(copy_bytes(bytes)) {
            Some(output) => check_output(arguments, label, seed, output.as_str()),
            None => Err(binary.to_owned().concat(" emitted non-UTF-8 output")),
        },
    }
}

fn copy_bytes(bytes: &Vec<u8>) -> (copy: Vec<u8>)
    ensures
        copy@ == bytes@,
{
    let mut copy: Vec<u8> = Vec::new();
    let mut i: usize = 0;
    while i < bytes.len()
        invariant
            i <= bytes.len(),
            copy@ == bytes@.take(i as int),
        decreases bytes.len() - i,
    {
        copy.push(bytes[i]);
        assert(bytes@.take(i + 1) =~= bytes@.take(i as int).push(bytes@[i as int]));
        i += 1;
    }
    assert(bytes@.take(bytes.len() as int) =~= bytes@);
    copy
}

/// A process that did not succeed makes its observation invalid, whatever it wrote; so does
/// one whose record is not of the work that it was told to do.
pub proof fn observations_fail_closed(design: Design, label: Label, seed: u64, finish: Finish)
    ensures
        observed(design, label, seed, finish) matches Ok(work) ==> {
            &&& finish is Wrote
            &&& work.mode == design.measure
            &&& is_asked_work(design, seed, work)
            &&& work.elapsed_ns > 0
        },
{
}

/// A record is accepted if and only if it names the measure, gives back the seed of the turn
/// and the count and sessions of the design, has one warmup, and neither asked for nor did
/// more or less than the count in every session.
pub proof fn accepted_records_did_the_asked_work(
    design: Design,
    label: Label,
    seed: u64,
    output: Seq<char>,
)
    ensures
        checked(design, label, seed, output) is Ok <==> {
            &&& record_in(output) is Ok
            &&& record_in(output)->Ok_0.mode == design.measure
            &&& record_in(output)->Ok_0.seed == seed
            &&& record_in(output)->Ok_0.count == design.count
            &&& record_in(output)->Ok_0.sessions == design.sessions
            &&& record_in(output)->Ok_0.warmup_sessions == 1
            &&& record_in(output)->Ok_0.requested == design.count * design.sessions
            &&& record_in(output)->Ok_0.completed == design.count * design.sessions
            &&& design.count * design.sessions <= u64::MAX
        },
        checked(design, label, seed, output) is Ok ==> checked(design, label, seed, output)
            == record_in(output),
{
}

/// An observation is valid if and only if its program succeeded and wrote, as text, a record
/// of the asked work. Which side of the comparison it is of does not matter.
pub proof fn valid_observations_did_the_asked_work(
    design: Design,
    label: Label,
    other: Label,
    seed: u64,
    finish: Finish,
)
    ensures
        observed(design, label, seed, finish) matches Ok(work) ==> {
            &&& finish is Wrote
            &&& valid_utf8(finish->Wrote_0@)
            &&& record_in(decode_utf8(finish->Wrote_0@)) == Ok::<Work, Seq<char>>(work)
            &&& work.mode == design.measure
            &&& work.seed == seed
            &&& work.count == design.count
            &&& work.sessions == design.sessions
            &&& work.warmup_sessions == 1
            &&& work.requested == design.count * design.sessions
            &&& work.completed == work.requested
        },
        finish matches Finish::Wrote(bytes) ==> valid_utf8(bytes@) ==> {
            observed(design, label, seed, finish) == checked(
                design,
                label,
                seed,
                decode_utf8(bytes@),
            )
        },
        observed(design, label, seed, finish) is Ok <==> observed(
            design,
            other,
            seed,
            finish,
        ) is Ok,
{
}

// ---------------------------------------------------------------------------
// The run.
// ---------------------------------------------------------------------------

/// One observation of a run. Blocks and positions are counted from one.
#[derive(Clone, Copy, Debug, PartialEq, Eq, Structural)]
pub struct Turn {
    pub block: usize,
    pub position: usize,
    pub label: Label,
    pub order: BlockOrder,
    pub seed: u64,
}

/// The observation behind the first `done` ones, if the plan has one more. The seeds are
/// used block by block, over and over.
pub open spec fn turn_of(design: Design, done: nat) -> Option<Turn> {
    let block = done as int / 4;
    let position = done as int % 4;
    if block >= design.schedule.len() {
        None
    } else {
        Some(
            Turn {
                block: (block + 1) as usize,
                position: (position + 1) as usize,
                label: design.schedule[block].sides()[position],
                order: design.schedule[block],
                seed: design.seeds[block % design.seeds.len() as int],
            },
        )
    }
}

/// Whether all four observations of a block succeeded.
pub open spec fn is_valid_block(outcomes: Seq<bool>, block: int) -> bool {
    outcomes[4 * block] && outcomes[4 * block + 1] && outcomes[4 * block + 2] && outcomes[4 * block
        + 3]
}

/// How many of the first `blocks` blocks are valid.
pub open spec fn valid_blocks(outcomes: Seq<bool>, blocks: nat) -> nat
    decreases blocks,
{
    if blocks == 0 {
        0
    } else {
        valid_blocks(outcomes, (blocks - 1) as nat) + (if is_valid_block(outcomes, blocks - 1) {
            1nat
        } else {
            0nat
        })
    }
}

/// Later outcomes do not change the count of earlier blocks.
proof fn lemma_valid_blocks_push(outcomes: Seq<bool>, ok: bool, blocks: nat)
    requires
        4 * blocks <= outcomes.len(),
    ensures
        valid_blocks(outcomes.push(ok), blocks) == valid_blocks(outcomes, blocks),
    decreases blocks,
{
    if blocks > 0 {
        lemma_valid_blocks_push(outcomes, ok, (blocks - 1) as nat);
    }
}

/// There are no more valid blocks than blocks, and all are valid only if each is.
pub proof fn blocks_are_counted_once(outcomes: Seq<bool>, blocks: nat)
    ensures
        valid_blocks(outcomes, blocks) <= blocks,
        valid_blocks(outcomes, blocks) == blocks <==> (forall|b: int|
            0 <= b < blocks ==> is_valid_block(outcomes, b)),
    decreases blocks,
{
    if blocks > 0 {
        let fewer = (blocks - 1) as nat;
        blocks_are_counted_once(outcomes, fewer);
        if valid_blocks(outcomes, blocks) == blocks {
            assert forall|b: int| 0 <= b < blocks implies is_valid_block(outcomes, b) by {
                if b < fewer {
                    assert(is_valid_block(outcomes, b));
                }
            }
        }
        if forall|b: int| 0 <= b < blocks ==> is_valid_block(outcomes, b) {
            assert(is_valid_block(outcomes, fewer as int));
            assert forall|b: int| 0 <= b < fewer implies is_valid_block(outcomes, b) by {}
        }
    }
}

/// Whether all observations from `from` on succeeded.
spec fn all_ok(outcomes: Seq<bool>, from: int) -> bool {
    forall|i: int| from <= i < outcomes.len() ==> outcomes[i]
}

/// A run of a comparison: it makes the planned observations in order, each once, and counts
/// the blocks. A block that fails is not made again.
pub struct Run<'a> {
    arguments: &'a Arguments,
    block: usize,
    position: usize,
    clean: bool,
    valid: usize,
    outcomes: Ghost<Seq<bool>>,
}

impl<'a> Run<'a> {
    /// The design that is run.
    pub closed spec fn design(self) -> Design {
        self.arguments@
    }

    /// The outcomes of the observations made so far.
    pub closed spec fn outcomes(self) -> Seq<bool> {
        self.outcomes@
    }

    #[verifier::type_invariant]
    spec fn counts(self) -> bool {
        let done = self.outcomes@.len();
        let blocks = self.arguments.schedule.len();
        &&& self.arguments.seeds.len() > 0
        &&& self.position < 4
        &&& self.block <= blocks
        &&& self.block == blocks ==> self.position == 0
        &&& done == 4 * self.block + self.position
        &&& self.clean == all_ok(self.outcomes@, 4 * self.block)
        &&& self.valid == valid_blocks(self.outcomes@, self.block as nat)
        &&& self.valid <= self.block
    }

    /// Start a run.
    pub fn new(arguments: &'a Arguments) -> (run: Self)
        requires
            arguments.seeds.len() > 0,
        ensures
            run.design() == arguments@,
            run.outcomes() == Seq::<bool>::empty(),
    {
        Run {
            arguments,
            block: 0,
            position: 0,
            clean: true,
            valid: 0,
            outcomes: Ghost(Seq::empty()),
        }
    }

    /// The next observation, if one is left.
    pub fn next(&self) -> (turn: Option<Turn>)
        ensures
            turn == turn_of(self.design(), self.outcomes().len()),
    {
        proof {
            use_type_invariant(self);
            let done = self.outcomes@.len() as int;
            assert(done / 4 == self.block && done % 4 == self.position) by (nonlinear_arith)
                requires
                    done == 4 * self.block + self.position,
                    0 <= self.position < 4,
            ;
        }
        if self.block >= self.arguments.schedule.len() {
            return None;
        }
        let order: BlockOrder = self.arguments.schedule[self.block];
        Some(
            Turn {
                block: self.block + 1,
                position: self.position + 1,
                label: order.labels()[self.position],
                order,
                seed: self.arguments.seeds[self.block % self.arguments.seeds.len()],
            },
        )
    }

    /// Note the outcome of the next observation. Where it completes a block, say whether the
    /// block is valid.
    pub fn record(&mut self, ok: bool) -> (block: Option<bool>)
        requires
            turn_of(old(self).design(), old(self).outcomes().len()) is Some,
        ensures
            final(self).design() == old(self).design(),
            final(self).outcomes() == old(self).outcomes().push(ok),
            block == (if final(self).outcomes().len() % 4 == 0 {
                Some(
                    is_valid_block(
                        final(self).outcomes(),
                        final(self).outcomes().len() as int / 4 - 1,
                    ),
                )
            } else {
                None
            }),
    {
        proof {
            use_type_invariant(&*self);
            let done = self.outcomes@.len() as int;
            assert(done / 4 == self.block && done % 4 == self.position) by (nonlinear_arith)
                requires
                    done == 4 * self.block + self.position,
                    0 <= self.position < 4,
            ;
            lemma_valid_blocks_push(self.outcomes@, ok, self.block as nat);
        }
        let ghost before = self.outcomes@;
        let ghost after = before.push(ok);
        let at: usize = self.position;
        let clean: bool = self.clean && ok;
        let block: usize = self.block;
        proof {
            assert(clean == all_ok(after, 4 * block)) by {
                if clean {
                    assert forall|i: int| 4 * block <= i < after.len() implies after[i] by {
                        if i < before.len() {
                            assert(before[i]);
                        }
                    }
                } else if !ok {
                    assert(!after[before.len() as int]);
                } else {
                    let bad = choose|i: int| 4 * block <= i < before.len() && !before[i];
                    assert(!after[bad]);
                }
            }
        }
        if at < 3 {
            *self = Run {
                arguments: self.arguments,
                block,
                position: at + 1,
                clean,
                valid: self.valid,
                outcomes: Ghost(after),
            };
            return None;
        }
        proof {
            assert(after.len() == 4 * (block + 1));
            assert(clean == is_valid_block(after, block as int)) by {
                if is_valid_block(after, block as int) {
                    assert forall|i: int| 4 * block <= i < after.len() implies after[i] by {
                        assert(i == 4 * block || i == 4 * block + 1 || i == 4 * block + 2 || i == 4
                            * block + 3);
                    }
                }
            }
        }
        *self = Run {
            arguments: self.arguments,
            block: block + 1,
            position: 0,
            clean: true,
            valid: if clean {
                self.valid + 1
            } else {
                self.valid
            },
            outcomes: Ghost(after),
        };
        Some(clean)
    }

    /// How many complete blocks are valid, and how many are not.
    pub fn counted(&self) -> (counts: (usize, usize))
        ensures
            counts.0 == valid_blocks(self.outcomes(), self.outcomes().len() / 4),
            counts.0 + counts.1 == self.outcomes().len() / 4,
    {
        proof {
            use_type_invariant(self);
            let done = self.outcomes@.len() as int;
            assert(done / 4 == self.block) by (nonlinear_arith)
                requires
                    done == 4 * self.block + self.position,
                    0 <= self.position < 4,
            ;
        }
        (self.valid, self.block - self.valid)
    }
}

/// A run makes four observations of every planned block, and no more.
pub proof fn runs_make_every_block_once(design: Design, done: nat)
    requires
        is_sound(design),
        design.schedule.len() <= usize::MAX,
    ensures
        turn_of(design, done) is Some <==> done < 4 * design.schedule.len(),
        turn_of(design, done) matches Some(turn) ==> {
            &&& turn.block == done / 4 + 1
            &&& turn.position == done % 4 + 1
            &&& turn.label == design.schedule[done as int / 4].sides()[done as int % 4]
            &&& design.seeds.contains(turn.seed)
        },
{
    let block = done as int / 4;
    if block < design.schedule.len() {
        let n = design.seeds.len() as int;
        assert(0 <= block % n < n) by (nonlinear_arith)
            requires
                n > 0,
        ;
        assert(design.seeds[block % n] == design.seeds[block % n]);
    }
}

/// All observations of a block are of the same work: they have the same seed and the same
/// order, whatever their position and their side.
pub proof fn sides_of_a_block_do_the_same_work(design: Design, block: nat, i: int, j: int)
    requires
        block < design.schedule.len(),
        0 <= i < 4,
        0 <= j < 4,
    ensures
        ({
            let a = turn_of(design, (4 * block + i) as nat);
            let b = turn_of(design, (4 * block + j) as nat);
            &&& a is Some && b is Some
            &&& a->0.seed == b->0.seed
            &&& a->0.order == b->0.order
            &&& a->0.order == design.schedule[block as int]
            &&& a->0.block == b->0.block
            &&& a->0.position - b->0.position == i - j
            &&& i < j ==> a->0.position < b->0.position
            &&& (a->0.label == b->0.label) <==> (i == j || i + j == 3)
        }),
{
    let n = 4 * block;
    assert((n + i) / 4 == block && (n + i) % 4 == i) by (nonlinear_arith)
        requires
            n == 4 * block,
            0 <= i < 4,
    ;
    assert((n + j) / 4 == block && (n + j) % 4 == j) by (nonlinear_arith)
        requires
            n == 4 * block,
            0 <= j < 4,
    ;
}

/// A block begins with the side that its order begins with: the baseline in an ABBA block, the
/// candidate in a BAAB block. The sides take turns as the letters say.
pub proof fn turns_follow_the_order(design: Design, block: nat)
    requires
        block < design.schedule.len(),
    ensures
        ({
            let turns = |i: int| turn_of(design, (4 * block + i) as nat)->0.label;
            let (a, b) = (Label::Baseline, Label::Candidate);
            match design.schedule[block as int] {
                BlockOrder::Abba => turns(0) == a && turns(1) == b && turns(2) == b && turns(3)
                    == a,
                BlockOrder::Baab => turns(0) == b && turns(1) == a && turns(2) == a && turns(3)
                    == b,
            }
        }),
{
    sides_of_a_block_do_the_same_work(design, block, 0, 1);
    sides_of_a_block_do_the_same_work(design, block, 2, 3);
    let n = 4 * block;
    assert(n / 4 == block && n % 4 == 0) by (nonlinear_arith)
        requires
            n == 4 * block,
    ;
}

/// The seeds are used block by block in their order, and begin again behind the last one.
pub proof fn seeds_are_used_in_turn(design: Design, block: nat, i: int)
    requires
        design.seeds.len() > 0,
        block < design.schedule.len(),
        0 <= i < 4,
    ensures
        ({
            let seed = turn_of(design, (4 * block + i) as nat)->0.seed;
            let around = (block + design.seeds.len()) as nat;
            &&& block < design.seeds.len() ==> seed == design.seeds[block as int]
            &&& around < design.schedule.len() ==> turn_of(design, (4 * around + i) as nat)->0.seed
                == seed
        }),
{
    let n = design.seeds.len() as int;
    let around = (block + n) as nat;
    let b = block as int;
    sides_of_a_block_do_the_same_work(design, block, i, i);
    assert((4 * b + i) / 4 == b) by (nonlinear_arith)
        requires
            0 <= i < 4,
    ;
    assert((4 * (b + n) + i) / 4 == b + n) by (nonlinear_arith)
        requires
            0 <= i < 4,
    ;
    assert((b + n) % n == b % n) by (nonlinear_arith)
        requires
            n > 0,
            b >= 0,
    ;
    if b < n {
        assert(b % n == b) by (nonlinear_arith)
            requires
                0 <= b < n,
        ;
    }
}

/// With at least as many blocks as seeds, each side does the work of every seed.
pub proof fn every_seed_is_used_by_both_sides(design: Design, k: nat, label: Label)
    requires
        k < design.seeds.len() <= design.schedule.len(),
    ensures
        exists|done: nat|
            #[trigger] turn_of(design, done) matches Some(turn) && turn.seed
                == design.seeds[k as int] && turn.label == label,
{
    seeds_are_used_in_turn(design, k, 0);
    seeds_are_used_in_turn(design, k, 1);
    turns_follow_the_order(design, k);
    let first = turn_of(design, (4 * k + 0) as nat);
    let second = turn_of(design, (4 * k + 1) as nat);
    sides_of_a_block_do_the_same_work(design, k, 0, 1);
    if first->0.label == label {
        assert(turn_of(design, (4 * k + 0) as nat) is Some);
    } else {
        assert(turn_of(design, (4 * k + 1) as nat) is Some);
    }
}

/// A block counts if and only if each of its four observations succeeded, whatever became of
/// other blocks; and each block that fails is one valid block fewer.
pub proof fn blocks_count_alone(outcomes: Seq<bool>, others: Seq<bool>, block: nat, k: nat)
    requires
        block < k,
        4 * k <= outcomes.len(),
        outcomes.len() == others.len(),
        forall|i: int|
            0 <= i < outcomes.len() && i / 4 != block ==> #[trigger] outcomes[i] == others[i],
    ensures
        is_valid_block(outcomes, block as int) <==> (forall|i: int|
            4 * block <= i < 4 * block + 4 ==> #[trigger] outcomes[i]),
        is_valid_block(outcomes, block as int) && !is_valid_block(others, block as int)
            ==> valid_blocks(outcomes, k) == valid_blocks(others, k) + 1,
        is_valid_block(outcomes, block as int) == is_valid_block(others, block as int)
            ==> valid_blocks(outcomes, k) == valid_blocks(others, k),
    decreases k,
{
    let b = block as int;
    let whole = forall|i: int| 4 * b <= i < 4 * b + 4 ==> #[trigger] outcomes[i];
    if whole {
        assert(outcomes[4 * b] && outcomes[4 * b + 1] && outcomes[4 * b + 2] && outcomes[4 * b
            + 3]);
    }
    if is_valid_block(outcomes, b) {
        assert forall|i: int| 4 * b <= i < 4 * b + 4 implies #[trigger] outcomes[i] by {
            assert(i == 4 * b || i == 4 * b + 1 || i == 4 * b + 2 || i == 4 * b + 3);
        }
    }
    let fewer = (k - 1) as nat;
    if block < fewer {
        blocks_count_alone(outcomes, others, block, fewer);
        lemma_same_block(outcomes, others, block as int, fewer as int);
    } else {
        lemma_same_count(outcomes, others, block as int, fewer);
    }
}

proof fn lemma_same_block(outcomes: Seq<bool>, others: Seq<bool>, block: int, b: int)
    requires
        b != block,
        0 <= b,
        4 * b + 4 <= outcomes.len(),
        forall|i: int|
            0 <= i < outcomes.len() && i / 4 != block ==> #[trigger] outcomes[i] == others[i],
    ensures
        is_valid_block(outcomes, b) == is_valid_block(others, b),
{
    assert(outcomes[4 * b] == others[4 * b]);
    assert(outcomes[4 * b + 1] == others[4 * b + 1]);
    assert(outcomes[4 * b + 2] == others[4 * b + 2]);
    assert(outcomes[4 * b + 3] == others[4 * b + 3]);
}

proof fn lemma_same_count(outcomes: Seq<bool>, others: Seq<bool>, block: int, k: nat)
    requires
        k <= block,
        4 * k <= outcomes.len(),
        forall|i: int|
            0 <= i < outcomes.len() && i / 4 != block ==> #[trigger] outcomes[i] == others[i],
    ensures
        valid_blocks(outcomes, k) == valid_blocks(others, k),
    decreases k,
{
    if k > 0 {
        lemma_same_count(outcomes, others, block, (k - 1) as nat);
        lemma_same_block(outcomes, others, block, k - 1);
    }
}

// ---------------------------------------------------------------------------
// What is reported.
// ---------------------------------------------------------------------------

/// How a turn is shown.
pub open spec fn turn_text(turn: Turn) -> Seq<char> {
    " block="@ + decimal(turn.block as nat) + " position="@ + decimal(turn.position as nat)
        + " label="@ + turn.label.letter() + " order="@ + turn.order.name() + " seed="@ + decimal(
        turn.seed as nat,
    )
}

fn show_turn(turn: &Turn) -> (text: String)
    ensures
        text@ == turn_text(*turn),
{
    " block=".to_owned().concat(number_text(turn.block as u128).as_str()).concat(
        " position=",
    ).concat(number_text(turn.position as u128).as_str()).concat(" label=").concat(
        turn.label.as_str(),
    ).concat(" order=").concat(turn.order.as_str()).concat(" seed=").concat(
        number_text(turn.seed as u128).as_str(),
    )
}

/// Report a valid observation. `speed` is its throughput, written out.
pub fn observation_line(turn: &Turn, record: &FixedRecord, speed: &str) -> (line: String)
    ensures
        line@ == "OBS"@ + turn_text(*turn) + " elapsed_ns="@ + decimal(record@.elapsed_ns)
            + " items_per_second="@ + speed@ + " attempts="@ + decimal(record@.attempts)
            + " output_bytes="@ + decimal(record@.output_bytes),
{
    "OBS".to_owned().concat(show_turn(turn).as_str()).concat(" elapsed_ns=").concat(
        number_text(record.elapsed_ns).as_str(),
    ).concat(" items_per_second=").concat(speed).concat(" attempts=").concat(
        number_text(record.attempts as u128).as_str(),
    ).concat(" output_bytes=").concat(number_text(record.output_bytes as u128).as_str())
}

/// Report an invalid observation.
pub fn invalid_line(turn: &Turn, error: &str) -> (line: String)
    ensures
        line@ == "INVALID"@ + turn_text(*turn) + ": "@ + error@,
{
    "INVALID".to_owned().concat(show_turn(turn).as_str()).concat(": ").concat(error)
}

/// The ratio of a valid block, written out.
pub struct RatioText {
    pub log_ratio: String,
    pub speedup_ratio: String,
    pub speedup_percent: String,
}

/// Report a block, with its ratio if it is valid.
pub fn block_line(block: usize, ratio: &Option<RatioText>) -> (line: String)
    ensures
        match ratio {
            Some(r) => line@ == "BLOCK block="@ + decimal(block as nat) + " valid=true log_ratio="@
                + r.log_ratio@ + " speedup_ratio="@ + r.speedup_ratio@ + " speedup_percent="@
                + r.speedup_percent@,
            None => line@ == "BLOCK block="@ + decimal(block as nat) + " valid=false"@,
        },
{
    let start = "BLOCK block=".to_owned().concat(number_text(block as u128).as_str());
    match ratio {
        Some(r) => start.concat(" valid=true log_ratio=").concat(r.log_ratio.as_str()).concat(
            " speedup_ratio=",
        ).concat(r.speedup_ratio.as_str()).concat(" speedup_percent=").concat(
            r.speedup_percent.as_str(),
        ),
        None => start.concat(" valid=false"),
    }
}

/// What the result of a comparison is evidence of. `faster` says whether the lower confidence
/// bound of the speedup is above one.
pub open spec fn evidence_of(design: Design, invalid: nat, faster: bool) -> Seq<char> {
    if invalid > 0 {
        "invalid_design"@
    } else if design.calibration {
        "calibration_only"@
    } else if design.held_out {
        if faster {
            "candidate_faster"@
        } else {
            "inconclusive"@
        }
    } else if faster {
        "screen_positive"@
    } else {
        "screen_inconclusive"@
    }
}

/// Name the evidence.
pub fn evidence(arguments: &Arguments, invalid: usize, faster: bool) -> (name: &'static str)
    ensures
        name@ == evidence_of(arguments@, invalid as nat, faster),
{
    if invalid > 0 {
        "invalid_design"
    } else if arguments.calibration {
        "calibration_only"
    } else if arguments.held_out {
        if faster {
            "candidate_faster"
        } else {
            "inconclusive"
        }
    } else if faster {
        "screen_positive"
    } else {
        "screen_inconclusive"
    }
}

/// Only a complete held-out comparison of two programs, with its lower bound above one, is
/// evidence that the candidate is faster.
pub proof fn evidence_is_earned(design: Design, invalid: nat, faster: bool)
    ensures
        evidence_of(design, invalid, faster) == "candidate_faster"@ <==> {
            &&& invalid == 0
            &&& !design.calibration
            &&& design.held_out
            &&& faster
        },
        evidence_of(design, invalid, faster) == "screen_positive"@ <==> {
            &&& invalid == 0
            &&& !design.calibration
            &&& !design.held_out
            &&& faster
        },
{
    reveal_strlit("invalid_design");
    reveal_strlit("calibration_only");
    reveal_strlit("candidate_faster");
    reveal_strlit("inconclusive");
    reveal_strlit("screen_positive");
    reveal_strlit("screen_inconclusive");
    assert("candidate_faster"@[2] == 'n');
    assert("calibration_only"@[2] == 'l');
    assert("candidate_faster"@.len() == 16);
    assert("inconclusive"@.len() == 12);
    assert("invalid_design"@.len() == 14);
    assert("screen_positive"@.len() == 15);
    assert("screen_inconclusive"@.len() == 19);
}

/// The statistics of a comparison, written out.
pub struct SummaryText {
    pub mean_log_ratio: String,
    pub log_ratio_sd: String,
    pub speedup_ratio: String,
    pub speedup_percent: String,
    pub lower_ratio: String,
    pub lower_percent: String,
}

/// A report with the statistics behind it. There are none where fewer than two blocks are
/// valid.
pub open spec fn with_summary(start: Seq<char>, summary: Option<SummaryText>) -> Seq<char> {
    match summary {
        Some(s) => start + " mean_log_ratio="@ + s.mean_log_ratio@ + " log_ratio_sd="@
            + s.log_ratio_sd@ + " speedup_ratio="@ + s.speedup_ratio@ + " speedup_percent="@
            + s.speedup_percent@ + " lower_95_one_sided_ratio="@ + s.lower_ratio@
            + " lower_95_one_sided_percent="@ + s.lower_percent@,
        None => start,
    }
}

fn add_summary(start: String, summary: &Option<SummaryText>) -> (text: String)
    ensures
        text@ == with_summary(start@, *summary),
{
    match summary {
        Some(s) => start.concat(" mean_log_ratio=").concat(s.mean_log_ratio.as_str()).concat(
            " log_ratio_sd=",
        ).concat(s.log_ratio_sd.as_str()).concat(" speedup_ratio=").concat(
            s.speedup_ratio.as_str(),
        ).concat(" speedup_percent=").concat(s.speedup_percent.as_str()).concat(
            " lower_95_one_sided_ratio=",
        ).concat(s.lower_ratio.as_str()).concat(" lower_95_one_sided_percent=").concat(
            s.lower_percent.as_str(),
        ),
        None => start,
    }
}

/// The report of a comparison up to its statistics.
pub open spec fn result_start(design: Design, valid: nat, invalid: nat) -> Seq<char> {
    "RESULT experiment="@ + experiment_of(design) + " scope="@ + scope_of(design) + " mode="@
        + design.measure + " valid_blocks="@ + decimal(valid) + " planned_blocks="@ + decimal(
        design.schedule.len(),
    ) + " invalid_blocks="@ + decimal(invalid)
}

/// The report of a comparison.
pub open spec fn result_text(
    design: Design,
    valid: nat,
    invalid: nat,
    summary: Option<SummaryText>,
    faster: bool,
) -> Seq<char> {
    with_summary(result_start(design, valid, invalid), summary) + " evidence="@ + evidence_of(
        design,
        invalid,
        faster,
    )
}

/// Report the result of a comparison.
pub fn result_line(
    arguments: &Arguments,
    valid: usize,
    invalid: usize,
    summary: &Option<SummaryText>,
    faster: bool,
) -> (line: String)
    ensures
        line@ == result_text(arguments@, valid as nat, invalid as nat, *summary, faster),
{
    let start = "RESULT experiment=".to_owned().concat(experiment(arguments)).concat(
        " scope=",
    ).concat(scope(arguments)).concat(" mode=").concat(arguments.measure.as_str()).concat(
        " valid_blocks=",
    ).concat(number_text(valid as u128).as_str()).concat(" planned_blocks=").concat(
        number_text(arguments.schedule.len() as u128).as_str(),
    ).concat(" invalid_blocks=").concat(number_text(invalid as u128).as_str());
    add_summary(start, summary).concat(" evidence=").concat(evidence(arguments, invalid, faster))
}

/// Report how many blocks a comparison needs. `target` is the speedup that it is to find,
/// written out.
pub fn calibration_line(target: &str, blocks: usize) -> (line: String)
    ensures
        line@ == "CALIBRATION target_speedup_percent="@ + target@
            + " approximate_blocks_for_80_percent_power="@ + decimal(blocks as nat),
{
    "CALIBRATION target_speedup_percent=".to_owned().concat(target).concat(
        " approximate_blocks_for_80_percent_power=",
    ).concat(number_text(blocks as u128).as_str())
}

/// The complaint about a run with fewer than two valid blocks.
pub fn too_few_blocks(valid: usize) -> (complaint: String)
    ensures
        complaint@ == "only "@ + decimal(valid as nat)
            + " valid block(s); at least two are required"@,
{
    "only ".to_owned().concat(number_text(valid as u128).as_str()).concat(
        " valid block(s); at least two are required",
    )
}

/// The evidence that a comparison gives: none if a block is invalid, only of the noise if a
/// program was compared with itself, a screening unless it was held out; and positive if and
/// only if the lower bound is above one.
#[verifier::spinoff_prover]
#[verifier::rlimit(40)]
pub proof fn evidence_is_named(design: Design, invalid: nat, faster: bool)
    ensures
        ({
            let evidence = evidence_of(design, invalid, faster);
            &&& evidence == "invalid_design"@ <==> invalid > 0
            &&& evidence == "calibration_only"@ <==> invalid == 0 && design.calibration
            &&& evidence == "inconclusive"@ <==> invalid == 0 && !design.calibration
                && design.held_out && !faster
            &&& evidence == "screen_inconclusive"@ <==> invalid == 0 && !design.calibration
                && !design.held_out && !faster
        }),
{
    reveal_strlit("invalid_design");
    reveal_strlit("calibration_only");
    reveal_strlit("candidate_faster");
    reveal_strlit("inconclusive");
    reveal_strlit("screen_positive");
    reveal_strlit("screen_inconclusive");
    assert("candidate_faster"@[2] == 'n');
    assert("calibration_only"@[2] == 'l');
    assert("candidate_faster"@.len() == 16);
    assert("calibration_only"@.len() == 16);
    assert("inconclusive"@.len() == 12);
    assert("invalid_design"@.len() == 14);
    assert("screen_positive"@.len() == 15);
    assert("screen_inconclusive"@.len() == 19);
}

/// The two sides of a comparison are told to do the same work: their commands differ at most
/// in the arguments of the side, behind the measure, the seed, the sessions and the count.
#[verifier::spinoff_prover]
#[verifier::rlimit(40)]
pub proof fn sides_are_told_the_same_work(design: Design, seed: u64)
    ensures
        ({
            let a = command_of(design, Label::Baseline, seed);
            let b = command_of(design, Label::Candidate, seed);
            &&& a.len() >= 8 && b.len() >= 8
            &&& a.take(8) == b.take(8)
            &&& a[0] == "--measure"@ && a[1] == design.measure
            &&& a[2] == "--seed"@ && a[3] == decimal(seed as nat)
            &&& a[4] == "--sessions"@ && a[5] == decimal(design.sessions as nat)
            &&& a[6] == "--count"@ && a[7] == decimal(design.count as nat)
            &&& design.direct && design.baseline_argv.len() > 0 ==> a.skip(8)
                == design.baseline_argv
            &&& design.direct && design.candidate_argv.len() > 0 ==> b.skip(8)
                == design.candidate_argv
            &&& design.direct && design.baseline_argv.len() == 0 ==> a.skip(8)
                == design.subject_argv
            &&& design.direct && design.candidate_argv.len() == 0 ==> b.skip(8)
                == design.subject_argv
        }),
{
    let a = command_of(design, Label::Baseline, seed);
    let b = command_of(design, Label::Candidate, seed);
    assert(a.take(8) =~= b.take(8));
    if design.direct {
        assert(a.skip(8) =~= argv_of(design, Label::Baseline));
        assert(b.skip(8) =~= argv_of(design, Label::Candidate));
    }
}

/// In a comparison of a program with itself, the sides cannot be told apart: they are the same
/// program with the same arguments.
pub proof fn calibrated_sides_are_alike(design: Design, seed: u64)
    requires
        is_sound(design),
        design.calibration,
    ensures
        binary_of(design, Label::Baseline) == binary_of(design, Label::Candidate),
        command_of(design, Label::Baseline, seed) == command_of(design, Label::Candidate, seed),
{
}

/// Each side is the program that was named for it.
pub proof fn sides_are_the_named_programs(design: Design)
    ensures
        binary_of(design, Label::Baseline) == design.baseline,
        binary_of(design, Label::Candidate) == design.candidate,
        design.baseline_args matches Some(own) ==> blob_of(design, Label::Baseline) == own,
        design.candidate_args matches Some(own) ==> blob_of(design, Label::Candidate) == own,
        design.baseline_args is None ==> blob_of(design, Label::Baseline) == design.subject_args,
        design.candidate_args is None ==> blob_of(design, Label::Candidate) == design.subject_args,
{
}

/// A comparison is shown as what it is: of a program with itself or of two, and as held out
/// only if it was registered so.
#[verifier::spinoff_prover]
#[verifier::rlimit(40)]
pub proof fn comparisons_are_labelled(design: Design)
    ensures
        experiment_of(design) == "AA"@ <==> design.calibration,
        experiment_of(design) == "AB"@ <==> !design.calibration,
        scope_of(design) == "calibration"@ <==> design.calibration,
        scope_of(design) == "held_out_confirmation"@ <==> !design.calibration && design.held_out,
        scope_of(design) == "exploratory_per_candidate"@ <==> !design.calibration
            && !design.held_out,
{
    reveal_strlit("AA");
    reveal_strlit("AB");
    reveal_strlit("calibration");
    reveal_strlit("held_out_confirmation");
    reveal_strlit("exploratory_per_candidate");
    assert("AA"@[1] != "AB"@[1]);
    assert("calibration"@.len() == 11);
    assert("held_out_confirmation"@.len() == 21);
    assert("exploratory_per_candidate"@.len() == 25);
}

/// A record that is refused is refused for the first of these: it is no record, it is of
/// another mode, the work cannot be counted, it is of other work. The complaint names the
/// program of the side and what it reported.
pub proof fn refusals_say_why(design: Design, label: Label, seed: u64, output: Seq<char>)
    ensures
        ({
            let program = if label == Label::Baseline {
                design.baseline
            } else {
                design.candidate
            };
            let why = checked(design, label, seed, output)->Err_0;
            match record_in(output) {
                Err(e) => checked(design, label, seed, output) is Err && why == e,
                Ok(work) => {
                    let total = design.count * design.sessions;
                    &&& work.mode != design.measure ==> checked(design, label, seed, output) is Err
                        && why == program + " reported mode "@ + work.mode + " instead of "@
                        + design.measure
                    &&& work.mode == design.measure && total > u64::MAX ==> checked(
                        design,
                        label,
                        seed,
                        output,
                    ) is Err && why == "count times sessions overflowed"@
                    &&& work.mode == design.measure && total <= u64::MAX && (work.seed != seed
                        || work.count != design.count || work.sessions != design.sessions
                        || work.warmup_sessions != 1 || work.requested != total || work.completed
                        != total) ==> checked(design, label, seed, output) is Err && why == program
                        + " reported mismatched work (seed="@ + decimal(work.seed) + ", count="@
                        + decimal(work.count) + ", sessions="@ + decimal(work.sessions)
                        + ", warmup_sessions="@ + decimal(work.warmup_sessions) + ", requested="@
                        + decimal(work.requested) + ", completed="@ + decimal(work.completed)
                        + ")"@
                },
            }
        }),
{
}

/// A process that did not succeed is complained about by its program and by what became of it.
pub proof fn failures_say_why(design: Design, label: Label, seed: u64, finish: Finish)
    requires
        !(finish is Wrote),
    ensures
        ({
            let program = if label == Label::Baseline {
                design.baseline
            } else {
                design.candidate
            };
            let why = observed(design, label, seed, finish)->Err_0;
            &&& observed(design, label, seed, finish) is Err
            &&& match finish {
                Finish::NotRun(said) => why == "could not run "@ + program + ": "@ + said@,
                Finish::TimedOut => why == program + " timed out after "@ + decimal(
                    design.timeout_ms as nat,
                ) + " ms"@,
                Finish::Overflowed(stream) => why == program + " "@ + stream@
                    + " exceeded --max-output-bytes limit of "@ + decimal(
                    design.max_output_bytes as nat,
                ),
                Finish::Failed(status, _) => begins_with(
                    why,
                    program + " exited with "@ + status@ + "; stderr: "@,
                ),
                Finish::Wrote(_) => true,
            }
        }),
{
    if let Finish::Failed(status, diagnostics) = finish {
        let why = observed(design, label, seed, finish)->Err_0;
        let start = binary_of(design, label) + " exited with "@ + status@ + "; stderr: "@;
        assert(why.take(start.len() as int) =~= start);
    }
}

}
