//! The command line of a paired comparison.
use crate::record::{bad_order, order_named, randomized_schedule, schedule_of, BlockOrder, Label};
use crate::text::{
    decimal, lemma_views_push, number_in, number_is_read_back, parse_u64, said, same_text,
    split_on, split_text, views,
};
use vstd::prelude::*;

verus! {

/// What a comparison measures unless it is told otherwise.
pub const DEFAULT_MEASURE: &'static str = "scan";

/// The work units of a session.
pub const DEFAULT_COUNT: u64 = 10_000;

/// The timed sessions of a process.
pub const DEFAULT_SESSIONS: u64 = 50;

/// The blocks of a comparison.
pub const DEFAULT_BLOCKS: usize = 16;

/// The seed of the work.
pub const DEFAULT_WORK_SEED: u64 = 42;

/// The seed of the schedule.
pub const DEFAULT_ORDER_SEED: u64 = 1;

/// How long one process may run, in milliseconds.
pub const DEFAULT_TIMEOUT_MS: u64 = 300_000;

/// How many bytes one process may write to one stream.
pub const DEFAULT_MAX_OUTPUT_BYTES: u64 = 16_777_216;

/// The greatest limit that may be set on the bytes of one stream.
pub const OUTPUT_BYTES_CAP: u64 = 67_108_864;

/// An option of the command line.
#[derive(Clone, Copy, Debug, PartialEq, Eq, Structural)]
pub enum Opt {
    Baseline,
    Candidate,
    Aa,
    Measure,
    SubjectArgs,
    BaselineArgs,
    CandidateArgs,
    DirectArgs,
    SubjectArg,
    BaselineArg,
    CandidateArg,
    Count,
    Sessions,
    Blocks,
    Seed,
    OrderSeed,
    Schedule,
    TargetSpeedup,
    HeldOut,
    TimeoutMs,
    MaxOutputBytes,
}

impl Opt {
    /// The option as it is written.
    pub open spec fn name(self) -> Seq<char> {
        match self {
            Opt::Baseline => "--baseline"@,
            Opt::Candidate => "--candidate"@,
            Opt::Aa => "--aa"@,
            Opt::Measure => "--measure"@,
            Opt::SubjectArgs => "--subject-args"@,
            Opt::BaselineArgs => "--baseline-args"@,
            Opt::CandidateArgs => "--candidate-args"@,
            Opt::DirectArgs => "--direct-args"@,
            Opt::SubjectArg => "--subject-arg"@,
            Opt::BaselineArg => "--baseline-arg"@,
            Opt::CandidateArg => "--candidate-arg"@,
            Opt::Count => "--count"@,
            Opt::Sessions => "--sessions"@,
            Opt::Blocks => "--blocks"@,
            Opt::Seed => "--seed"@,
            Opt::OrderSeed => "--order-seed"@,
            Opt::Schedule => "--schedule"@,
            Opt::TargetSpeedup => "--target-speedup"@,
            Opt::HeldOut => "--held-out"@,
            Opt::TimeoutMs => "--timeout-ms"@,
            Opt::MaxOutputBytes => "--max-output-bytes"@,
        }
    }

    /// Whether a value follows the option.
    pub open spec fn takes_value(self) -> bool {
        self != Opt::HeldOut && self != Opt::DirectArgs
    }

    fn as_str(self) -> (name: &'static str)
        ensures
            name@ == self.name(),
    {
        match self {
            Self::Baseline => "--baseline",
            Self::Candidate => "--candidate",
            Self::Aa => "--aa",
            Self::Measure => "--measure",
            Self::SubjectArgs => "--subject-args",
            Self::BaselineArgs => "--baseline-args",
            Self::CandidateArgs => "--candidate-args",
            Self::DirectArgs => "--direct-args",
            Self::SubjectArg => "--subject-arg",
            Self::BaselineArg => "--baseline-arg",
            Self::CandidateArg => "--candidate-arg",
            Self::Count => "--count",
            Self::Sessions => "--sessions",
            Self::Blocks => "--blocks",
            Self::Seed => "--seed",
            Self::OrderSeed => "--order-seed",
            Self::Schedule => "--schedule",
            Self::TargetSpeedup => "--target-speedup",
            Self::HeldOut => "--held-out",
            Self::TimeoutMs => "--timeout-ms",
            Self::MaxOutputBytes => "--max-output-bytes",
        }
    }
}

/// The option that is written `text`.
pub open spec fn option_named(text: Seq<char>) -> Option<Opt> {
    if text == "--baseline"@ {
        Some(Opt::Baseline)
    } else if text == "--candidate"@ {
        Some(Opt::Candidate)
    } else if text == "--aa"@ {
        Some(Opt::Aa)
    } else if text == "--measure"@ {
        Some(Opt::Measure)
    } else if text == "--subject-args"@ {
        Some(Opt::SubjectArgs)
    } else if text == "--baseline-args"@ {
        Some(Opt::BaselineArgs)
    } else if text == "--candidate-args"@ {
        Some(Opt::CandidateArgs)
    } else if text == "--direct-args"@ {
        Some(Opt::DirectArgs)
    } else if text == "--subject-arg"@ {
        Some(Opt::SubjectArg)
    } else if text == "--baseline-arg"@ {
        Some(Opt::BaselineArg)
    } else if text == "--candidate-arg"@ {
        Some(Opt::CandidateArg)
    } else if text == "--count"@ {
        Some(Opt::Count)
    } else if text == "--sessions"@ {
        Some(Opt::Sessions)
    } else if text == "--blocks"@ {
        Some(Opt::Blocks)
    } else if text == "--seed"@ {
        Some(Opt::Seed)
    } else if text == "--order-seed"@ {
        Some(Opt::OrderSeed)
    } else if text == "--schedule"@ {
        Some(Opt::Schedule)
    } else if text == "--target-speedup"@ {
        Some(Opt::TargetSpeedup)
    } else if text == "--held-out"@ {
        Some(Opt::HeldOut)
    } else if text == "--timeout-ms"@ {
        Some(Opt::TimeoutMs)
    } else if text == "--max-output-bytes"@ {
        Some(Opt::MaxOutputBytes)
    } else {
        None
    }
}

fn find_option(text: &str) -> (option: Option<Opt>)
    ensures
        option == option_named(text@),
{
    if same_text(text, "--baseline") {
        Some(Opt::Baseline)
    } else if same_text(text, "--candidate") {
        Some(Opt::Candidate)
    } else if same_text(text, "--aa") {
        Some(Opt::Aa)
    } else if same_text(text, "--measure") {
        Some(Opt::Measure)
    } else if same_text(text, "--subject-args") {
        Some(Opt::SubjectArgs)
    } else if same_text(text, "--baseline-args") {
        Some(Opt::BaselineArgs)
    } else if same_text(text, "--candidate-args") {
        Some(Opt::CandidateArgs)
    } else if same_text(text, "--direct-args") {
        Some(Opt::DirectArgs)
    } else if same_text(text, "--subject-arg") {
        Some(Opt::SubjectArg)
    } else if same_text(text, "--baseline-arg") {
        Some(Opt::BaselineArg)
    } else if same_text(text, "--candidate-arg") {
        Some(Opt::CandidateArg)
    } else if same_text(text, "--count") {
        Some(Opt::Count)
    } else if same_text(text, "--sessions") {
        Some(Opt::Sessions)
    } else if same_text(text, "--blocks") {
        Some(Opt::Blocks)
    } else if same_text(text, "--seed") {
        Some(Opt::Seed)
    } else if same_text(text, "--order-seed") {
        Some(Opt::OrderSeed)
    } else if same_text(text, "--schedule") {
        Some(Opt::Schedule)
    } else if same_text(text, "--target-speedup") {
        Some(Opt::TargetSpeedup)
    } else if same_text(text, "--held-out") {
        Some(Opt::HeldOut)
    } else if same_text(text, "--timeout-ms") {
        Some(Opt::TimeoutMs)
    } else if same_text(text, "--max-output-bytes") {
        Some(Opt::MaxOutputBytes)
    } else {
        None
    }
}

// ---------------------------------------------------------------------------
// Values.
// ---------------------------------------------------------------------------

/// The number above zero that `text` says.
pub open spec fn positive_in(text: Seq<char>) -> Option<nat> {
    match number_in(text, u64::MAX as nat) {
        Some(n) => if n > 0 {
            Some(n)
        } else {
            None
        },
        None => None,
    }
}

/// Parse a number above zero.
pub fn parse_positive_u64(value: &str, description: &str) -> (parsed: Result<u64, String>)
    ensures
        match parsed {
            Ok(n) => positive_in(value@) == Some(n as nat),
            Err(e) => positive_in(value@) is None && e@ == description@
                + " must be a positive integer"@,
        },
{
    match parse_u64(value) {
        Some(n) => {
            if n == 0 {
                Err(description.to_owned().concat(" must be a positive integer"))
            } else {
                Ok(n)
            }
        },
        None => Err(description.to_owned().concat(" must be a positive integer")),
    }
}

/// The orders that `names` name, or the complaint about the first that names none.
pub open spec fn orders_in(names: Seq<Seq<char>>) -> Result<Seq<BlockOrder>, Seq<char>>
    decreases names.len(),
{
    if names.len() == 0 {
        Ok(Seq::empty())
    } else {
        match orders_in(names.drop_last()) {
            Err(e) => Err(e),
            Ok(orders) => match order_named(names.last()) {
                Some(order) => Ok(orders.push(order)),
                None => Err(bad_order(names.last())),
            },
        }
    }
}

/// The schedule that `text` lists, with commas between the orders.
pub open spec fn schedule_in(text: Seq<char>) -> Result<Seq<BlockOrder>, Seq<char>> {
    if text.len() == 0 {
        Err("schedule must contain ABBA or BAAB blocks"@)
    } else {
        orders_in(split_on(text, ','))
    }
}

/// A bad name among the first ones is the complaint about all.
proof fn lemma_first_bad_order(names: Seq<Seq<char>>, n: int)
    requires
        0 <= n <= names.len(),
        orders_in(names.take(n)) is Err,
    ensures
        orders_in(names) == orders_in(names.take(n)),
    decreases names.len() - n,
{
    if n < names.len() {
        assert(names.take(n + 1).drop_last() =~= names.take(n));
        lemma_first_bad_order(names, n + 1);
    } else {
        assert(names.take(n) =~= names);
    }
}

/// Parse a list of block orders.
pub fn parse_schedule(value: &str) -> (schedule: Result<Vec<BlockOrder>, String>)
    ensures
        match schedule {
            Ok(s) => schedule_in(value@) == Ok::<Seq<BlockOrder>, Seq<char>>(s@),
            Err(e) => schedule_in(value@) == Err::<Seq<BlockOrder>, Seq<char>>(e@),
        },
{
    if value.unicode_len() == 0 {
        return Err("schedule must contain ABBA or BAAB blocks".to_owned());
    }
    let pieces = split_text(value, ',');
    let ghost names = views(pieces@);
    let mut schedule: Vec<BlockOrder> = Vec::new();
    let mut i: usize = 0;
    while i < pieces.len()
        invariant
            i <= pieces.len(),
            names == views(pieces@),
            names == split_on(value@, ','),
            value@.len() > 0,
            orders_in(names.take(i as int)) == Ok::<Seq<BlockOrder>, Seq<char>>(schedule@),
        decreases pieces.len() - i,
    {
        proof {
            let more = names.take(i + 1);
            assert(more.drop_last() =~= names.take(i as int));
            assert(more.last() == pieces@[i as int]@);
        }
        match BlockOrder::parse(pieces[i].as_str()) {
            Ok(order) => schedule.push(order),
            Err(e) => {
                proof {
                    lemma_first_bad_order(names, i + 1);
                }
                return Err(e);
            },
        }
        i += 1;
    }
    assert(names.take(names.len() as int) =~= names);
    Ok(schedule)
}

// ---------------------------------------------------------------------------
// Reading the options.
// ---------------------------------------------------------------------------

/// The options that a command line gave.
pub struct Given {
    pub baseline: Option<Seq<char>>,
    pub candidate: Option<Seq<char>>,
    pub aa: Option<Seq<char>>,
    pub measure: Option<Seq<char>>,
    pub subject_args: Option<Seq<char>>,
    pub baseline_args: Option<Seq<char>>,
    pub candidate_args: Option<Seq<char>>,
    pub direct_args: bool,
    pub subject_argv: Seq<Seq<char>>,
    pub baseline_argv: Seq<Seq<char>>,
    pub candidate_argv: Seq<Seq<char>>,
    pub count: Option<u64>,
    pub sessions: Option<u64>,
    pub blocks: Option<usize>,
    pub seeds: Seq<u64>,
    pub order_seed: Option<u64>,
    pub schedule: Option<Seq<BlockOrder>>,
    pub target_speedup: Option<Seq<char>>,
    pub held_out: bool,
    pub timeout_ms: Option<u64>,
    pub max_output_bytes: Option<u64>,
}

/// No option at all.
pub open spec fn nothing_given() -> Given {
    Given {
        baseline: None,
        candidate: None,
        aa: None,
        measure: None,
        subject_args: None,
        baseline_args: None,
        candidate_args: None,
        direct_args: false,
        subject_argv: Seq::empty(),
        baseline_argv: Seq::empty(),
        candidate_argv: Seq::empty(),
        count: None,
        sessions: None,
        blocks: None,
        seeds: Seq::empty(),
        order_seed: None,
        schedule: None,
        target_speedup: None,
        held_out: false,
        timeout_ms: None,
        max_output_bytes: None,
    }
}

/// Whether `option` may not be given again. Seeds and single arguments may be repeated.
pub open spec fn is_settled(given: Given, option: Opt) -> bool {
    match option {
        Opt::Baseline => given.baseline is Some,
        Opt::Candidate => given.candidate is Some,
        Opt::Aa => given.aa is Some,
        Opt::Measure => given.measure is Some,
        Opt::SubjectArgs => given.subject_args is Some,
        Opt::BaselineArgs => given.baseline_args is Some,
        Opt::CandidateArgs => given.candidate_args is Some,
        Opt::DirectArgs => given.direct_args,
        Opt::SubjectArg | Opt::BaselineArg | Opt::CandidateArg | Opt::Seed => false,
        Opt::Count => given.count is Some,
        Opt::Sessions => given.sessions is Some,
        Opt::Blocks => given.blocks is Some,
        Opt::OrderSeed => given.order_seed is Some,
        Opt::Schedule => given.schedule is Some,
        Opt::TargetSpeedup => given.target_speedup is Some,
        Opt::HeldOut => given.held_out,
        Opt::TimeoutMs => given.timeout_ms is Some,
        Opt::MaxOutputBytes => given.max_output_bytes is Some,
    }
}

/// `given` with an option that takes no value.
pub open spec fn switched(given: Given, option: Opt) -> Given {
    if option == Opt::HeldOut {
        Given { held_out: true, ..given }
    } else {
        Given { direct_args: true, ..given }
    }
}

/// `given` with `option` set to `value`, or the complaint about the value. `percentage` says
/// whether the value is a finite percentage above zero.
pub open spec fn assigned(given: Given, option: Opt, value: Seq<char>, percentage: bool) -> Result<
    Given,
    Seq<char>,
> {
    match option {
        Opt::Baseline => Ok(Given { baseline: Some(value), ..given }),
        Opt::Candidate => Ok(Given { candidate: Some(value), ..given }),
        Opt::Aa => Ok(Given { aa: Some(value), ..given }),
        Opt::Measure => if value.len() == 0 {
            Err("`--measure` must not be empty"@)
        } else {
            Ok(Given { measure: Some(value), ..given })
        },
        Opt::SubjectArgs => Ok(Given { subject_args: Some(value), ..given }),
        Opt::BaselineArgs => Ok(Given { baseline_args: Some(value), ..given }),
        Opt::CandidateArgs => Ok(Given { candidate_args: Some(value), ..given }),
        Opt::SubjectArg => Ok(Given { subject_argv: given.subject_argv.push(value), ..given }),
        Opt::BaselineArg => Ok(Given { baseline_argv: given.baseline_argv.push(value), ..given }),
        Opt::CandidateArg => Ok(
            Given { candidate_argv: given.candidate_argv.push(value), ..given },
        ),
        Opt::Count => match positive_in(value) {
            Some(n) => Ok(Given { count: Some(n as u64), ..given }),
            None => Err("count"@ + " must be a positive integer"@),
        },
        Opt::Sessions => match positive_in(value) {
            Some(n) => Ok(Given { sessions: Some(n as u64), ..given }),
            None => Err("sessions"@ + " must be a positive integer"@),
        },
        Opt::Blocks => match positive_in(value) {
            Some(n) => if n > usize::MAX {
                Err("block count is too large for this platform"@)
            } else {
                Ok(Given { blocks: Some(n as usize), ..given })
            },
            None => Err("blocks"@ + " must be a positive integer"@),
        },
        Opt::Seed => match number_in(value, u64::MAX as nat) {
            Some(n) => Ok(Given { seeds: given.seeds.push(n as u64), ..given }),
            None => Err("seed must be a non-negative integer"@),
        },
        Opt::OrderSeed => match number_in(value, u64::MAX as nat) {
            Some(n) => Ok(Given { order_seed: Some(n as u64), ..given }),
            None => Err("order seed must be a non-negative integer"@),
        },
        Opt::Schedule => match schedule_in(value) {
            Ok(orders) => Ok(Given { schedule: Some(orders), ..given }),
            Err(e) => Err(e),
        },
        Opt::TargetSpeedup => if percentage {
            Ok(Given { target_speedup: Some(value), ..given })
        } else {
            Err("target speedup must be a positive percentage"@)
        },
        Opt::TimeoutMs => match positive_in(value) {
            Some(n) => Ok(Given { timeout_ms: Some(n as u64), ..given }),
            None => Err("timeout milliseconds"@ + " must be a positive integer"@),
        },
        Opt::MaxOutputBytes => match positive_in(value) {
            Some(n) => if n > OUTPUT_BYTES_CAP {
                Err("maximum output bytes must not exceed 67108864"@)
            } else {
                Ok(Given { max_output_bytes: Some(n as u64), ..given })
            },
            None => Err("maximum output bytes"@ + " must be a positive integer"@),
        },
        Opt::HeldOut | Opt::DirectArgs => Ok(switched(given, option)),
    }
}

/// Whether `text` asks for help.
pub open spec fn asks_for_help(text: Seq<char>) -> bool {
    text == "-h"@ || text == "--help"@
}

/// The options that `args` give from `at` on, on top of `given`. A request for help ends the
/// reading with nothing, the first mistake with a complaint.
pub open spec fn options_from(
    args: Seq<Seq<char>>,
    percentages: Seq<bool>,
    at: int,
    given: Given,
) -> Result<Option<Given>, Seq<char>>
    decreases args.len() - at,
{
    if at >= args.len() {
        Ok(Some(given))
    } else if asks_for_help(args[at]) {
        Ok(None)
    } else {
        match option_named(args[at]) {
            None => Err("unknown option `"@ + args[at] + "`"@),
            Some(option) => if is_settled(given, option) {
                Err("`"@ + option.name() + "` specified more than once"@)
            } else if !option.takes_value() {
                options_from(args, percentages, at + 1, switched(given, option))
            } else if at + 1 >= args.len() {
                Err("missing value after `"@ + option.name() + "`"@)
            } else {
                match assigned(given, option, args[at + 1], percentages[at + 1]) {
                    Err(e) => Err(e),
                    Ok(more) => options_from(args, percentages, at + 2, more),
                }
            },
        }
    }
}

struct Options {
    baseline: Option<String>,
    candidate: Option<String>,
    aa: Option<String>,
    measure: Option<String>,
    subject_args: Option<String>,
    baseline_args: Option<String>,
    candidate_args: Option<String>,
    direct_args: bool,
    subject_argv: Vec<String>,
    baseline_argv: Vec<String>,
    candidate_argv: Vec<String>,
    count: Option<u64>,
    sessions: Option<u64>,
    blocks: Option<usize>,
    seeds: Vec<u64>,
    order_seed: Option<u64>,
    schedule: Option<Vec<BlockOrder>>,
    target_speedup: Option<String>,
    held_out: bool,
    timeout_ms: Option<u64>,
    max_output_bytes: Option<u64>,
}

spec fn orders_given(schedule: Option<Vec<BlockOrder>>) -> Option<Seq<BlockOrder>> {
    match schedule {
        Some(s) => Some(s@),
        None => None,
    }
}

impl View for Options {
    type V = Given;

    closed spec fn view(&self) -> Given {
        Given {
            baseline: said(self.baseline),
            candidate: said(self.candidate),
            aa: said(self.aa),
            measure: said(self.measure),
            subject_args: said(self.subject_args),
            baseline_args: said(self.baseline_args),
            candidate_args: said(self.candidate_args),
            direct_args: self.direct_args,
            subject_argv: views(self.subject_argv@),
            baseline_argv: views(self.baseline_argv@),
            candidate_argv: views(self.candidate_argv@),
            count: self.count,
            sessions: self.sessions,
            blocks: self.blocks,
            seeds: self.seeds@,
            order_seed: self.order_seed,
            schedule: orders_given(self.schedule),
            target_speedup: said(self.target_speedup),
            held_out: self.held_out,
            timeout_ms: self.timeout_ms,
            max_output_bytes: self.max_output_bytes,
        }
    }
}

impl Options {
    fn new() -> (options: Self)
        ensures
            options@ == nothing_given(),
    {
        let options = Options {
            baseline: None,
            candidate: None,
            aa: None,
            measure: None,
            subject_args: None,
            baseline_args: None,
            candidate_args: None,
            direct_args: false,
            subject_argv: Vec::new(),
            baseline_argv: Vec::new(),
            candidate_argv: Vec::new(),
            count: None,
            sessions: None,
            blocks: None,
            seeds: Vec::new(),
            order_seed: None,
            schedule: None,
            target_speedup: None,
            held_out: false,
            timeout_ms: None,
            max_output_bytes: None,
        };
        proof {
            assert(views(options.subject_argv@) =~= Seq::empty());
            assert(views(options.baseline_argv@) =~= Seq::empty());
            assert(views(options.candidate_argv@) =~= Seq::empty());
            assert(options.seeds@ =~= Seq::empty());
        }
        options
    }

    fn settled(&self, option: Opt) -> (yes: bool)
        ensures
            yes == is_settled(self@, option),
    {
        match option {
            Opt::Baseline => self.baseline.is_some(),
            Opt::Candidate => self.candidate.is_some(),
            Opt::Aa => self.aa.is_some(),
            Opt::Measure => self.measure.is_some(),
            Opt::SubjectArgs => self.subject_args.is_some(),
            Opt::BaselineArgs => self.baseline_args.is_some(),
            Opt::CandidateArgs => self.candidate_args.is_some(),
            Opt::DirectArgs => self.direct_args,
            Opt::SubjectArg | Opt::BaselineArg | Opt::CandidateArg | Opt::Seed => false,
            Opt::Count => self.count.is_some(),
            Opt::Sessions => self.sessions.is_some(),
            Opt::Blocks => self.blocks.is_some(),
            Opt::OrderSeed => self.order_seed.is_some(),
            Opt::Schedule => self.schedule.is_some(),
            Opt::TargetSpeedup => self.target_speedup.is_some(),
            Opt::HeldOut => self.held_out,
            Opt::TimeoutMs => self.timeout_ms.is_some(),
            Opt::MaxOutputBytes => self.max_output_bytes.is_some(),
        }
    }

    fn switch(&mut self, option: Opt)
        ensures
            final(self)@ == switched(old(self)@, option),
    {
        if option == Opt::HeldOut {
            self.held_out = true;
        } else {
            self.direct_args = true;
        }
    }

    fn assign(&mut self, option: Opt, value: &str, percentage: bool) -> (done: Result<(), String>)
        ensures
            match done {
                Ok(_) => assigned(old(self)@, option, value@, percentage) == Ok::<Given, Seq<char>>(
                    final(self)@,
                ),
                Err(e) => assigned(old(self)@, option, value@, percentage) == Err::<
                    Given,
                    Seq<char>,
                >(e@),
            },
    {
        match option {
            Opt::Baseline => self.baseline = Some(value.to_owned()),
            Opt::Candidate => self.candidate = Some(value.to_owned()),
            Opt::Aa => self.aa = Some(value.to_owned()),
            Opt::Measure => {
                if value.unicode_len() == 0 {
                    return Err("`--measure` must not be empty".to_owned());
                }
                self.measure = Some(value.to_owned());
            },
            Opt::SubjectArgs => self.subject_args = Some(value.to_owned()),
            Opt::BaselineArgs => self.baseline_args = Some(value.to_owned()),
            Opt::CandidateArgs => self.candidate_args = Some(value.to_owned()),
            Opt::SubjectArg => {
                let text = value.to_owned();
                proof {
                    lemma_views_push(self.subject_argv@, text);
                }
                self.subject_argv.push(text);
            },
            Opt::BaselineArg => {
                let text = value.to_owned();
                proof {
                    lemma_views_push(self.baseline_argv@, text);
                }
                self.baseline_argv.push(text);
            },
            Opt::CandidateArg => {
                let text = value.to_owned();
                proof {
                    lemma_views_push(self.candidate_argv@, text);
                }
                self.candidate_argv.push(text);
            },
            Opt::Count => match parse_positive_u64(value, "count") {
                Ok(n) => self.count = Some(n),
                Err(e) => return Err(e),
            },
            Opt::Sessions => match parse_positive_u64(value, "sessions") {
                Ok(n) => self.sessions = Some(n),
                Err(e) => return Err(e),
            },
            Opt::Blocks => match parse_positive_u64(value, "blocks") {
                Ok(n) => {
                    if n > usize::MAX as u64 {
                        return Err("block count is too large for this platform".to_owned());
                    }
                    self.blocks = Some(n as usize);
                },
                Err(e) => return Err(e),
            },
            Opt::Seed => match parse_u64(value) {
                Some(n) => self.seeds.push(n),
                None => return Err("seed must be a non-negative integer".to_owned()),
            },
            Opt::OrderSeed => match parse_u64(value) {
                Some(n) => self.order_seed = Some(n),
                None => return Err("order seed must be a non-negative integer".to_owned()),
            },
            Opt::Schedule => match parse_schedule(value) {
                Ok(orders) => self.schedule = Some(orders),
                Err(e) => return Err(e),
            },
            Opt::TargetSpeedup => {
                if !percentage {
                    return Err("target speedup must be a positive percentage".to_owned());
                }
                self.target_speedup = Some(value.to_owned());
            },
            Opt::TimeoutMs => match parse_positive_u64(value, "timeout milliseconds") {
                Ok(n) => self.timeout_ms = Some(n),
                Err(e) => return Err(e),
            },
            Opt::MaxOutputBytes => match parse_positive_u64(value, "maximum output bytes") {
                Ok(n) => {
                    if n > OUTPUT_BYTES_CAP {
                        return Err("maximum output bytes must not exceed 67108864".to_owned());
                    }
                    self.max_output_bytes = Some(n);
                },
                Err(e) => return Err(e),
            },
            Opt::HeldOut | Opt::DirectArgs => self.switch(option),
        }
        Ok(())
    }
}

fn read_options(args: &Vec<String>, percentages: &Vec<bool>) -> (given: Result<
    Option<Options>,
    String,
>)
    requires
        percentages.len() == args.len(),
    ensures
        match given {
            Ok(Some(o)) => options_from(views(args@), percentages@, 0, nothing_given()) == Ok::<
                Option<Given>,
                Seq<char>,
            >(Some(o@)),
            Ok(None) => options_from(views(args@), percentages@, 0, nothing_given()) == Ok::<
                Option<Given>,
                Seq<char>,
            >(None),
            Err(e) => options_from(views(args@), percentages@, 0, nothing_given()) == Err::<
                Option<Given>,
                Seq<char>,
            >(e@),
        },
{
    let mut options = Options::new();
    let mut at: usize = 0;
    let ghost texts = views(args@);
    let ghost whole = options_from(texts, percentages@, 0, nothing_given());
    while at < args.len()
        invariant
            at <= args.len(),
            percentages.len() == args.len(),
            texts == views(args@),
            whole == options_from(texts, percentages@, 0, nothing_given()),
            whole == options_from(texts, percentages@, at as int, options@),
        decreases args.len() - at,
    {
        let argument = args[at].as_str();
        assert(texts[at as int] == argument@);
        if same_text(argument, "-h") || same_text(argument, "--help") {
            return Ok(None);
        }
        match find_option(argument) {
            None => {
                return Err("unknown option `".to_owned().concat(argument).concat("`"));
            },
            Some(option) => {
                if options.settled(option) {
                    return Err(
                        "`".to_owned().concat(option.as_str()).concat("` specified more than once"),
                    );
                }
                if option == Opt::HeldOut || option == Opt::DirectArgs {
                    options.switch(option);
                    at += 1;
                } else {
                    if at + 1 >= args.len() {
                        return Err(
                            "missing value after `".to_owned().concat(option.as_str()).concat("`"),
                        );
                    }
                    assert(texts[at + 1] == args@[at + 1]@);
                    match options.assign(option, args[at + 1].as_str(), percentages[at + 1]) {
                        Ok(_) => {},
                        Err(e) => return Err(e),
                    }
                    at += 2;
                }
            },
        }
    }
    Ok(Some(options))
}

// ---------------------------------------------------------------------------
// The design.
// ---------------------------------------------------------------------------

/// The design of a paired comparison.
#[derive(Debug, PartialEq, Eq)]
pub struct Arguments {
    pub baseline: String,
    pub candidate: String,
    pub calibration: bool,
    pub measure: String,
    pub subject_args: String,
    pub baseline_args: Option<String>,
    pub candidate_args: Option<String>,
    pub direct: bool,
    pub subject_argv: Vec<String>,
    pub baseline_argv: Vec<String>,
    pub candidate_argv: Vec<String>,
    pub count: u64,
    pub sessions: u64,
    pub seeds: Vec<u64>,
    pub schedule: Vec<BlockOrder>,
    pub order_seed: Option<u64>,
    pub target_speedup: Option<String>,
    pub held_out: bool,
    pub timeout_ms: u64,
    pub max_output_bytes: u64,
}

/// What a design says.
pub struct Design {
    pub baseline: Seq<char>,
    pub candidate: Seq<char>,
    pub calibration: bool,
    pub measure: Seq<char>,
    pub subject_args: Seq<char>,
    pub baseline_args: Option<Seq<char>>,
    pub candidate_args: Option<Seq<char>>,
    pub direct: bool,
    pub subject_argv: Seq<Seq<char>>,
    pub baseline_argv: Seq<Seq<char>>,
    pub candidate_argv: Seq<Seq<char>>,
    pub count: u64,
    pub sessions: u64,
    pub seeds: Seq<u64>,
    pub schedule: Seq<BlockOrder>,
    pub order_seed: Option<u64>,
    pub target_speedup: Option<Seq<char>>,
    pub held_out: bool,
    pub timeout_ms: u64,
    pub max_output_bytes: u64,
}

impl View for Arguments {
    type V = Design;

    open spec fn view(&self) -> Design {
        Design {
            baseline: self.baseline@,
            candidate: self.candidate@,
            calibration: self.calibration,
            measure: self.measure@,
            subject_args: self.subject_args@,
            baseline_args: said(self.baseline_args),
            candidate_args: said(self.candidate_args),
            direct: self.direct,
            subject_argv: views(self.subject_argv@),
            baseline_argv: views(self.baseline_argv@),
            candidate_argv: views(self.candidate_argv@),
            count: self.count,
            sessions: self.sessions,
            seeds: self.seeds@,
            schedule: self.schedule@,
            order_seed: self.order_seed,
            target_speedup: said(self.target_speedup),
            held_out: self.held_out,
            timeout_ms: self.timeout_ms,
            max_output_bytes: self.max_output_bytes,
        }
    }
}

/// The work of one process.
pub open spec fn requested(design: Design) -> int {
    design.count * design.sessions
}

/// What holds of every design that a command line gives.
pub open spec fn is_sound(design: Design) -> bool {
    &&& design.measure.len() > 0
    &&& design.count > 0
    &&& design.sessions > 0
    &&& requested(design) <= u64::MAX
    &&& design.seeds.len() > 0
    &&& design.schedule.len() >= 2
    &&& design.calibration ==> {
        &&& design.baseline == design.candidate
        &&& !design.held_out
        &&& design.baseline_args is None && design.candidate_args is None
        &&& design.baseline_argv.len() == 0 && design.candidate_argv.len() == 0
    }
    &&& design.direct ==> {
        &&& design.subject_args.len() == 0
        &&& design.baseline_args is None && design.candidate_args is None
    }
    &&& !design.direct ==> {
        &&& design.subject_argv.len() == 0
        &&& design.baseline_argv.len() == 0 && design.candidate_argv.len() == 0
    }
    &&& match design.order_seed {
        Some(seed) => design.schedule == schedule_of(design.schedule.len(), seed),
        None => true,
    }
    &&& design.timeout_ms > 0
    &&& 0 < design.max_output_bytes <= OUTPUT_BYTES_CAP
}

/// `value`, or `default` where there is none.
pub open spec fn or_default<T>(value: Option<T>, default: T) -> T {
    match value {
        Some(v) => v,
        None => default,
    }
}

/// Whether the arguments of the subject are handed over one by one.
pub open spec fn is_direct(given: Given) -> bool {
    given.direct_args || given.subject_argv.len() > 0 || given.baseline_argv.len() > 0
        || given.candidate_argv.len() > 0
}

/// Why the options do not fit together, if they do not.
pub open spec fn conflict(given: Given) -> Option<Seq<char>> {
    let calibration = given.aa is Some;
    if calibration && (given.baseline is Some || given.candidate is Some) {
        Some("`--aa` cannot be combined with `--baseline` or `--candidate`"@)
    } else if !calibration && (given.baseline is None || given.candidate is None) {
        Some("provide both `--baseline` and `--candidate`, or use `--aa`"@)
    } else if calibration && given.held_out {
        Some("`--held-out` cannot be combined with `--aa`"@)
    } else if calibration && (given.baseline_args is Some || given.candidate_args is Some) {
        Some("`--baseline-args`/`--candidate-args` cannot be combined with `--aa`"@)
    } else if calibration && (given.baseline_argv.len() > 0 || given.candidate_argv.len() > 0) {
        Some("`--baseline-arg`/`--candidate-arg` cannot be combined with `--aa`"@)
    } else if is_direct(given) && (given.subject_args is Some || given.baseline_args is Some
        || given.candidate_args is Some) {
        Some(
            "direct arguments cannot be combined with `--subject-args`, `--baseline-args`, or `--candidate-args`"@,
        )
    } else if given.schedule is Some && (given.blocks is Some || given.order_seed is Some) {
        Some("`--schedule` cannot be combined with `--blocks` or `--order-seed`"@)
    } else {
        None
    }
}

/// The design that the options describe, if they fit together.
pub open spec fn designed(given: Given) -> Design {
    let order_seed = or_default(given.order_seed, DEFAULT_ORDER_SEED);
    Design {
        baseline: match given.aa {
            Some(binary) => binary,
            None => given.baseline->0,
        },
        candidate: match given.aa {
            Some(binary) => binary,
            None => given.candidate->0,
        },
        calibration: given.aa is Some,
        measure: or_default(given.measure, DEFAULT_MEASURE@),
        subject_args: or_default(given.subject_args, Seq::empty()),
        baseline_args: given.baseline_args,
        candidate_args: given.candidate_args,
        direct: is_direct(given),
        subject_argv: given.subject_argv,
        baseline_argv: given.baseline_argv,
        candidate_argv: given.candidate_argv,
        count: or_default(given.count, DEFAULT_COUNT),
        sessions: or_default(given.sessions, DEFAULT_SESSIONS),
        seeds: if given.seeds.len() == 0 {
            seq![DEFAULT_WORK_SEED]
        } else {
            given.seeds
        },
        schedule: match given.schedule {
            Some(orders) => orders,
            None => schedule_of(or_default(given.blocks, DEFAULT_BLOCKS) as nat, order_seed),
        },
        order_seed: match given.schedule {
            Some(_) => None,
            None => Some(order_seed),
        },
        target_speedup: given.target_speedup,
        held_out: given.held_out,
        timeout_ms: or_default(given.timeout_ms, DEFAULT_TIMEOUT_MS),
        max_output_bytes: or_default(given.max_output_bytes, DEFAULT_MAX_OUTPUT_BYTES),
    }
}

/// The design that the options describe, or the complaint about it.
pub open spec fn design_of(given: Given) -> Result<Design, Seq<char>> {
    match conflict(given) {
        Some(complaint) => Err(complaint),
        None => {
            let design = designed(given);
            if design.schedule.len() < 2 {
                Err("at least two blocks are required for a confidence bound"@)
            } else if requested(design) > u64::MAX {
                Err("count times sessions overflowed"@)
            } else {
                Ok(design)
            }
        },
    }
}

/// The design that a command line describes, nothing where it asks for help, or the first
/// complaint about it.
pub open spec fn design_in(args: Seq<Seq<char>>, percentages: Seq<bool>) -> Result<
    Option<Design>,
    Seq<char>,
> {
    match options_from(args, percentages, 0, nothing_given()) {
        Err(e) => Err(e),
        Ok(None) => Ok(None),
        Ok(Some(given)) => match design_of(given) {
            Err(e) => Err(e),
            Ok(design) => Ok(Some(design)),
        },
    }
}

/// What holds of the options while they are read.
spec fn is_plausible(given: Given) -> bool {
    &&& given.measure is Some ==> (given.measure->0).len() > 0
    &&& given.count is Some ==> given.count->0 > 0
    &&& given.sessions is Some ==> given.sessions->0 > 0
    &&& given.timeout_ms is Some ==> given.timeout_ms->0 > 0
    &&& given.max_output_bytes is Some ==> 0 < given.max_output_bytes->0 <= OUTPUT_BYTES_CAP
}

proof fn lemma_options_plausible(
    args: Seq<Seq<char>>,
    percentages: Seq<bool>,
    at: int,
    given: Given,
)
    requires
        is_plausible(given),
    ensures
        options_from(args, percentages, at, given) matches Ok(Some(end)) ==> is_plausible(end),
    decreases args.len() - at,
{
    if at < args.len() && !asks_for_help(args[at]) {
        match option_named(args[at]) {
            None => {},
            Some(option) => {
                if is_settled(given, option) {
                } else if !option.takes_value() {
                    lemma_options_plausible(args, percentages, at + 1, switched(given, option));
                } else if at + 1 < args.len() {
                    match assigned(given, option, args[at + 1], percentages[at + 1]) {
                        Err(_) => {},
                        Ok(more) => {
                            lemma_options_plausible(args, percentages, at + 2, more);
                        },
                    }
                }
            },
        }
    }
}

/// Every design that a command line gives is sound: it has work, seeds and at least two
/// blocks, its work fits a record, and its options do not contradict each other.
pub proof fn designs_are_sound(args: Seq<Seq<char>>, percentages: Seq<bool>)
    ensures
        design_in(args, percentages) matches Ok(Some(design)) ==> is_sound(design),
{
    lemma_options_plausible(args, percentages, 0, nothing_given());
    reveal_strlit("scan");
    if let Ok(Some(given)) = options_from(args, percentages, 0, nothing_given()) {
        let design = designed(given);
        assert(design.schedule =~= (match design.order_seed {
            Some(seed) => schedule_of(design.schedule.len(), seed),
            None => design.schedule,
        }));
    }
}

fn describe(options: Options) -> (arguments: Result<Arguments, String>)
    ensures
        match arguments {
            Ok(a) => design_of(options@) == Ok::<Design, Seq<char>>(a@),
            Err(e) => design_of(options@) == Err::<Design, Seq<char>>(e@),
        },
{
    let ghost given = options@;
    let direct: bool = options.direct_args || options.subject_argv.len() > 0
        || options.baseline_argv.len() > 0 || options.candidate_argv.len() > 0;
    let calibration: bool = options.aa.is_some();
    if calibration && (options.baseline.is_some() || options.candidate.is_some()) {
        return Err("`--aa` cannot be combined with `--baseline` or `--candidate`".to_owned());
    }
    if !calibration && (options.baseline.is_none() || options.candidate.is_none()) {
        return Err("provide both `--baseline` and `--candidate`, or use `--aa`".to_owned());
    }
    if calibration && options.held_out {
        return Err("`--held-out` cannot be combined with `--aa`".to_owned());
    }
    if calibration && (options.baseline_args.is_some() || options.candidate_args.is_some()) {
        return Err(
            "`--baseline-args`/`--candidate-args` cannot be combined with `--aa`".to_owned(),
        );
    }
    if calibration && (options.baseline_argv.len() > 0 || options.candidate_argv.len() > 0) {
        return Err("`--baseline-arg`/`--candidate-arg` cannot be combined with `--aa`".to_owned());
    }
    if direct && (options.subject_args.is_some() || options.baseline_args.is_some()
        || options.candidate_args.is_some()) {
        return Err(
            "direct arguments cannot be combined with `--subject-args`, `--baseline-args`, or `--candidate-args`".to_owned(),
        );
    }
    if options.schedule.is_some() && (options.blocks.is_some() || options.order_seed.is_some()) {
        return Err("`--schedule` cannot be combined with `--blocks` or `--order-seed`".to_owned());
    }
    assert(conflict(given) is None);
    let (baseline, candidate) = match options.aa {
        Some(binary) => (binary.as_str().to_owned(), binary),
        None => match (options.baseline, options.candidate) {
            (Some(baseline), Some(candidate)) => (baseline, candidate),
            _ => (String::new(), String::new()),
        },
    };
    let order_seed: u64 = match options.order_seed {
        Some(seed) => seed,
        None => DEFAULT_ORDER_SEED,
    };
    let (schedule, registered) = match options.schedule {
        Some(orders) => (orders, None),
        None => {
            let blocks: usize = match options.blocks {
                Some(n) => n,
                None => DEFAULT_BLOCKS,
            };
            (randomized_schedule(blocks, order_seed), Some(order_seed))
        },
    };
    if schedule.len() < 2 {
        return Err("at least two blocks are required for a confidence bound".to_owned());
    }
    let count: u64 = match options.count {
        Some(n) => n,
        None => DEFAULT_COUNT,
    };
    let sessions: u64 = match options.sessions {
        Some(n) => n,
        None => DEFAULT_SESSIONS,
    };
    if count.checked_mul(sessions).is_none() {
        return Err("count times sessions overflowed".to_owned());
    }
    let mut seeds = options.seeds;
    if seeds.len() == 0 {
        seeds.push(DEFAULT_WORK_SEED);
        assert(seeds@ =~= seq![DEFAULT_WORK_SEED]);
    }
    let measure = match options.measure {
        Some(text) => text,
        None => DEFAULT_MEASURE.to_owned(),
    };
    let subject_args = match options.subject_args {
        Some(text) => text,
        None => String::new(),
    };
    assert(options.subject_args is None ==> subject_args@ =~= Seq::empty());
    let arguments = Arguments {
        baseline,
        candidate,
        calibration,
        measure,
        subject_args,
        baseline_args: options.baseline_args,
        candidate_args: options.candidate_args,
        direct,
        subject_argv: options.subject_argv,
        baseline_argv: options.baseline_argv,
        candidate_argv: options.candidate_argv,
        count,
        sessions,
        seeds,
        schedule,
        order_seed: registered,
        target_speedup: options.target_speedup,
        held_out: options.held_out,
        timeout_ms: match options.timeout_ms {
            Some(n) => n,
            None => DEFAULT_TIMEOUT_MS,
        },
        max_output_bytes: match options.max_output_bytes {
            Some(n) => n,
            None => DEFAULT_MAX_OUTPUT_BYTES,
        },
    };
    assert(arguments@ == designed(given));
    Ok(arguments)
}

/// Parse a command line. `percentages` says of each argument whether it is a finite
/// percentage above zero. Nothing comes back where the command line asks for help.
pub fn parse_args(args: &Vec<String>, percentages: &Vec<bool>) -> (arguments: Result<
    Option<Arguments>,
    String,
>)
    requires
        percentages.len() == args.len(),
    ensures
        match arguments {
            Ok(Some(a)) => {
                &&& design_in(views(args@), percentages@) == Ok::<Option<Design>, Seq<char>>(
                    Some(a@),
                )
                &&& is_sound(a@)
            },
            Ok(None) => design_in(views(args@), percentages@) == Ok::<Option<Design>, Seq<char>>(
                None,
            ),
            Err(e) => design_in(views(args@), percentages@) == Err::<Option<Design>, Seq<char>>(e@),
        },
{
    proof {
        designs_are_sound(views(args@), percentages@);
    }
    match read_options(args, percentages) {
        Err(e) => Err(e),
        Ok(None) => Ok(None),
        Ok(Some(options)) => match describe(options) {
            Err(e) => Err(e),
            Ok(arguments) => Ok(Some(arguments)),
        },
    }
}

// ---------------------------------------------------------------------------
// Sides.
// ---------------------------------------------------------------------------

/// The program of a side.
pub open spec fn binary_of(design: Design, label: Label) -> Seq<char> {
    match label {
        Label::Baseline => design.baseline,
        Label::Candidate => design.candidate,
    }
}

/// The opaque arguments of a side: its own, or those of both.
pub open spec fn blob_of(design: Design, label: Label) -> Seq<char> {
    match label {
        Label::Baseline => or_default(design.baseline_args, design.subject_args),
        Label::Candidate => or_default(design.candidate_args, design.subject_args),
    }
}

/// The single arguments of a side: its own, or those of both.
pub open spec fn argv_of(design: Design, label: Label) -> Seq<Seq<char>> {
    let own = match label {
        Label::Baseline => design.baseline_argv,
        Label::Candidate => design.candidate_argv,
    };
    if own.len() == 0 {
        design.subject_argv
    } else {
        own
    }
}

impl Arguments {
    /// The program of a side.
    pub fn binary_for(&self, label: Label) -> (binary: &str)
        ensures
            binary@ == binary_of(self@, label),
    {
        match label {
            Label::Baseline => self.baseline.as_str(),
            Label::Candidate => self.candidate.as_str(),
        }
    }

    /// The opaque arguments that are forwarded to the program of a side.
    pub fn args_for(&self, label: Label) -> (args: &str)
        ensures
            args@ == blob_of(self@, label),
    {
        match label {
            Label::Baseline => match &self.baseline_args {
                Some(own) => own.as_str(),
                None => self.subject_args.as_str(),
            },
            Label::Candidate => match &self.candidate_args {
                Some(own) => own.as_str(),
                None => self.subject_args.as_str(),
            },
        }
    }

    /// The single arguments that are handed to the program of a side.
    pub fn argv_for(&self, label: Label) -> (argv: &Vec<String>)
        ensures
            views(argv@) == argv_of(self@, label),
    {
        let own = match label {
            Label::Baseline => &self.baseline_argv,
            Label::Candidate => &self.candidate_argv,
        };
        if own.len() == 0 {
            &self.subject_argv
        } else {
            own
        }
    }
}

/// Every number above zero that fits is read where one above zero is asked for, and neither
/// zero nor a larger number is.
pub proof fn positive_numbers_are_read(n: nat)
    ensures
        0 < n <= u64::MAX ==> positive_in(decimal(n)) == Some(n),
        n == 0 || n > u64::MAX ==> positive_in(decimal(n)) is None,
{
    if n <= u64::MAX {
        number_is_read_back(n, u64::MAX as nat);
    } else {
        number_is_read_back(n, n);
    }
}

}
