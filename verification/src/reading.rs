//! What the command lines of the programs say: every option keeps to itself, what an option
//! says is kept, and what is left out has its default.
use crate::arguments::{
    asks_for_help, assigned, design_of, is_direct, is_settled, nothing_given, option_named,
    options_from, orders_in, schedule_in, switched, Given, Opt,
};
use crate::config::{
    default_settings, flag_named, settings_from, settings_in, with_flag, Flag, Settings,
};
use crate::paired::order_names;
use crate::record::{order_named, schedule_of, BlockOrder};
use crate::subject::{merged, switch_named, task_from, with_switch, Switch, Task};
use crate::text::{
    all_decimal, decimal, is_blank, is_white, joined, number_in, split_on, trimmed,
    trimming_takes_white_ends, upper, upper_char,
};
use vstd::prelude::*;

verus! {

// ---------------------------------------------------------------------------
// The options of a comparison.
// ---------------------------------------------------------------------------

/// A text, if there is one.
pub open spec fn listed(text: Option<Seq<char>>) -> Seq<Seq<char>> {
    match text {
        Some(t) => seq![t],
        None => Seq::empty(),
    }
}

/// A number, written out, if there is one.
pub open spec fn listed_number(number: Option<u64>) -> Seq<Seq<char>> {
    match number {
        Some(n) => seq![decimal(n as nat)],
        None => Seq::empty(),
    }
}

/// What was given for an option, value by value. Numbers are in decimal.
pub open spec fn texts_of(given: Given, option: Opt) -> Seq<Seq<char>> {
    match option {
        Opt::Baseline => listed(given.baseline),
        Opt::Candidate => listed(given.candidate),
        Opt::Aa => listed(given.aa),
        Opt::Measure => listed(given.measure),
        Opt::SubjectArgs => listed(given.subject_args),
        Opt::BaselineArgs => listed(given.baseline_args),
        Opt::CandidateArgs => listed(given.candidate_args),
        Opt::DirectArgs => if given.direct_args {
            seq![Seq::empty()]
        } else {
            Seq::empty()
        },
        Opt::SubjectArg => given.subject_argv,
        Opt::BaselineArg => given.baseline_argv,
        Opt::CandidateArg => given.candidate_argv,
        Opt::Count => listed_number(given.count),
        Opt::Sessions => listed_number(given.sessions),
        Opt::Blocks => match given.blocks {
            Some(n) => seq![decimal(n as nat)],
            None => Seq::empty(),
        },
        Opt::Seed => all_decimal(given.seeds),
        Opt::OrderSeed => listed_number(given.order_seed),
        Opt::Schedule => match given.schedule {
            Some(orders) => seq![joined(order_names(orders), seq![','])],
            None => Seq::empty(),
        },
        Opt::TargetSpeedup => listed(given.target_speedup),
        Opt::HeldOut => if given.held_out {
            seq![Seq::empty()]
        } else {
            Seq::empty()
        },
        Opt::TimeoutMs => listed_number(given.timeout_ms),
        Opt::MaxOutputBytes => listed_number(given.max_output_bytes),
    }
}

/// Whether an option may be given more than once.
pub open spec fn may_be_repeated(option: Opt) -> bool {
    option == Opt::Seed || option == Opt::SubjectArg || option == Opt::BaselineArg || option
        == Opt::CandidateArg
}

/// Whether `text` is what `value` says for an option that takes one. Work, blocks and limits
/// are numbers above zero, seeds are numbers, and no more than 64 MiB may be written.
pub open spec fn means(option: Opt, value: Seq<char>, text: Seq<char>) -> bool {
    let number = number_in(value, 0xffff_ffff_ffff_ffff);
    match option {
        Opt::Count | Opt::Sessions | Opt::TimeoutMs => number matches Some(n) && n >= 1 && text
            == decimal(n),
        Opt::Blocks => number matches Some(n) && 1 <= n <= usize::MAX && text == decimal(n),
        Opt::MaxOutputBytes => number matches Some(n) && 1 <= n <= 67108864 && text == decimal(n),
        Opt::Seed | Opt::OrderSeed => number matches Some(n) && text == decimal(n),
        Opt::Schedule => schedule_in(value) matches Ok(orders) && text == joined(
            order_names(orders),
            seq![','],
        ),
        Opt::Measure => value.len() > 0 && text == value,
        _ => text == value,
    }
}

/// An option that is given adds what its value says to its own texts, and to nothing else. It
/// is refused if its value does not say anything.
pub proof fn options_keep_to_themselves(
    given: Given,
    option: Opt,
    value: Seq<char>,
    percentage: bool,
    other: Opt,
)
    requires
        option != Opt::HeldOut && option != Opt::DirectArgs,
        !is_settled(given, option),
    ensures
        assigned(given, option, value, percentage) is Ok <==> {
            &&& exists|text: Seq<char>| #[trigger] means(option, value, text)
            &&& option == Opt::TargetSpeedup ==> percentage
        },
        assigned(given, option, value, percentage) matches Ok(more) ==> {
            &&& other != option ==> texts_of(more, other) == texts_of(given, other)
            &&& texts_of(more, option).len() == texts_of(given, option).len() + 1
            &&& texts_of(more, option).drop_last() == texts_of(given, option)
            &&& means(option, value, texts_of(more, option).last())
        },
{
    if let Ok(more) = assigned(given, option, value, percentage) {
        let before = texts_of(given, option);
        let after = texts_of(more, option);
        assert(after.drop_last() =~= before);
        assert(means(option, value, after.last()));
    }
    if exists|text: Seq<char>| #[trigger] means(option, value, text) {
        let text = choose|text: Seq<char>| #[trigger] means(option, value, text);
        assert(means(option, value, text));
    }
}

/// A switch switches itself on, and nothing else.
pub proof fn switches_keep_to_themselves(given: Given, option: Opt, other: Opt)
    requires
        option == Opt::HeldOut || option == Opt::DirectArgs,
    ensures
        texts_of(switched(given, option), option).len() == 1,
        other != option ==> texts_of(switched(given, option), other) == texts_of(given, other),
{
}

/// An option is settled if and only if it was given and may not be repeated.
pub proof fn options_settle(given: Given, option: Opt)
    ensures
        is_settled(given, option) <==> texts_of(given, option).len() > 0 && !may_be_repeated(
            option,
        ),
        texts_of(nothing_given(), option).len() == 0,
{
}

/// Reading goes on behind an option that was not settled: behind its value, if that says
/// something, with what it says added; or right behind a switch.
pub proof fn reading_goes_on(
    args: Seq<Seq<char>>,
    percentages: Seq<bool>,
    at: int,
    given: Given,
    option: Opt,
)
    requires
        0 <= at < args.len(),
        !asks_for_help(args[at]),
        option_named(args[at]) == Some(option),
        !is_settled(given, option),
    ensures
        option == Opt::HeldOut || option == Opt::DirectArgs ==> options_from(
            args,
            percentages,
            at,
            given,
        ) == options_from(args, percentages, at + 1, switched(given, option)),
        option != Opt::HeldOut && option != Opt::DirectArgs && at + 1 < args.len() && (exists|
            text: Seq<char>,
        | #[trigger]
            means(option, args[at + 1], text)) && (option == Opt::TargetSpeedup ==> percentages[at
            + 1]) ==> exists|more: Given|
            {
                &&& #[trigger] options_from(args, percentages, at + 2, more) == options_from(
                    args,
                    percentages,
                    at,
                    given,
                )
                &&& texts_of(more, option).drop_last() == texts_of(given, option)
                &&& means(option, args[at + 1], texts_of(more, option).last())
                &&& forall|other: Opt|
                    other != option ==> #[trigger] texts_of(more, other) == texts_of(given, other)
            },
{
    if option != Opt::HeldOut && option != Opt::DirectArgs && at + 1 < args.len() {
        let value = args[at + 1];
        let made = assigned(given, option, value, percentages[at + 1]);
        options_keep_to_themselves(given, option, value, percentages[at + 1], option);
        if let Ok(more) = made {
            assert(options_from(args, percentages, at, given) == options_from(
                args,
                percentages,
                at + 2,
                more,
            ));
            assert forall|other: Opt| other != option implies #[trigger] texts_of(more, other)
                == texts_of(given, other) by {
                options_keep_to_themselves(given, option, value, percentages[at + 1], other);
            }
        }
    }
}

/// What is read is what the command line says: every argument is an option or the value of
/// one, what an option says is kept, an option that is not repeatable stands only once, and
/// nothing is given that was not said.
pub proof fn options_are_kept(
    args: Seq<Seq<char>>,
    percentages: Seq<bool>,
    at: int,
    given: Given,
    option: Opt,
)
    requires
        0 <= at,
        options_from(args, percentages, at, given) matches Ok(Some(_)),
    ensures
        ({
            let end = options_from(args, percentages, at, given)->Ok_0->0;
            let (before, after) = (texts_of(given, option), texts_of(end, option));
            &&& before.len() <= after.len()
            &&& after.take(before.len() as int) == before
            &&& at >= args.len() ==> after == before
            &&& at < args.len() ==> {
                let here = option_named(args[at]);
                &&& here is Some
                &&& !asks_for_help(args[at])
                &&& here == Some(option) ==> {
                    &&& before.len() < after.len()
                    &&& before.len() == 0 || may_be_repeated(option)
                    &&& option != Opt::HeldOut && option != Opt::DirectArgs ==> at + 1
                        < args.len() && means(option, args[at + 1], after[before.len() as int])
                }
            }
        }),
    decreases args.len() - at,
{
    let end = options_from(args, percentages, at, given)->Ok_0->0;
    let (before, after) = (texts_of(given, option), texts_of(end, option));
    if at >= args.len() {
        assert(after.take(before.len() as int) =~= before);
    } else {
        let here = option_named(args[at])->0;
        options_settle(given, here);
        if !here.takes_value() {
            let more = switched(given, here);
            switches_keep_to_themselves(given, here, option);
            options_are_kept(args, percentages, at + 1, more, option);
            if here == option {
                assert(before =~= Seq::empty());
                assert(after.take(0) =~= before);
            }
        } else {
            let more = assigned(given, here, args[at + 1], percentages[at + 1])->Ok_0;
            options_keep_to_themselves(given, here, args[at + 1], percentages[at + 1], option);
            options_are_kept(args, percentages, at + 2, more, option);
            if here == option {
                let mid = texts_of(more, option);
                let n = before.len() as int;
                assert(after.take(n) =~= mid.take(n));
                assert(mid.take(n) =~= mid.drop_last());
                assert(after[n] == after.take(n + 1)[n]);
            }
        }
    }
}

/// A schedule is one order for each name between the commas, in their order; it is refused if
/// one of them names no order.
pub proof fn schedules_are_read_name_by_name(text: Seq<char>)
    ensures
        schedule_in(text) is Ok <==> text.len() > 0 && forall|i: int|
            0 <= i < split_on(text, ',').len() ==> order_named(#[trigger] split_on(text, ',')[i])
                is Some,
        schedule_in(text) matches Ok(orders) ==> {
            &&& orders.len() == split_on(text, ',').len()
            &&& forall|i: int|
                0 <= i < orders.len() ==> order_named(split_on(text, ',')[i]) == Some(
                    #[trigger] orders[i],
                )
        },
{
    lemma_orders(split_on(text, ','));
}

proof fn lemma_orders(names: Seq<Seq<char>>)
    ensures
        orders_in(names) is Ok <==> forall|i: int|
            0 <= i < names.len() ==> order_named(#[trigger] names[i]) is Some,
        orders_in(names) matches Ok(orders) ==> {
            &&& orders.len() == names.len()
            &&& forall|i: int|
                0 <= i < orders.len() ==> order_named(names[i]) == Some(#[trigger] orders[i])
        },
    decreases names.len(),
{
    if names.len() > 0 {
        let most = names.drop_last();
        let n = names.len() - 1;
        lemma_orders(most);
        assert(names.last() == names[n]);
        assert(forall|i: int| 0 <= i < n ==> #[trigger] most[i] == names[i]);
        if forall|i: int| 0 <= i < names.len() ==> order_named(#[trigger] names[i]) is Some {
            assert forall|i: int| 0 <= i < most.len() implies order_named(#[trigger] most[i])
                is Some by {
                assert(most[i] == names[i]);
            }
        }
        if let Ok(orders) = orders_in(names) {
            let fewer = orders_in(most)->Ok_0;
            assert forall|i: int| 0 <= i < orders.len() implies order_named(names[i]) == Some(
                #[trigger] orders[i],
            ) by {
                if i < n {
                    assert(orders[i] == fewer[i]);
                    assert(most[i] == names[i]);
                }
            }
            assert forall|i: int| 0 <= i < names.len() implies order_named(#[trigger] names[i])
                is Some by {
                assert(order_named(names[i]) == Some(orders[i]));
            }
        }
    }
}

/// Options fit together if and only if they name one program to be compared with itself, or
/// two; a comparison of a program with itself is not held out and has no arguments for one
/// side; single and opaque arguments are not mixed; an explicit schedule comes without a
/// number of blocks and an order seed; and there are two blocks at least, and no more work
/// than a record can hold.
pub proof fn options_fit_together_exactly(given: Given)
    ensures
        design_of(given) is Ok <==> {
            let single = given.direct_args || given.subject_argv.len() > 0
                || given.baseline_argv.len() > 0 || given.candidate_argv.len() > 0;
            let count = match given.count {
                Some(n) => n as int,
                None => 10_000,
            };
            let sessions = match given.sessions {
                Some(n) => n as int,
                None => 50,
            };
            &&& given.aa is Some ==> {
                &&& given.baseline is None && given.candidate is None
                &&& !given.held_out
                &&& given.baseline_args is None && given.candidate_args is None
                &&& given.baseline_argv.len() == 0 && given.candidate_argv.len() == 0
            }
            &&& given.aa is None ==> given.baseline is Some && given.candidate is Some
            &&& single ==> given.subject_args is None && given.baseline_args is None
                && given.candidate_args is None
            &&& given.schedule matches Some(orders) ==> {
                &&& given.blocks is None && given.order_seed is None
                &&& orders.len() >= 2
            }
            &&& given.blocks matches Some(n) ==> n >= 2
            &&& count * sessions < 0x1_0000_0000_0000_0000
        },
{
}

/// A design says what the options say, and has a default for what they leave out.
pub proof fn designs_say_what_the_options_say(given: Given)
    requires
        design_of(given) is Ok,
    ensures
        ({
            let d = design_of(given)->Ok_0;
            let order_seed = match given.order_seed {
                Some(seed) => seed,
                None => 1,
            };
            let blocks = match given.blocks {
                Some(n) => n as nat,
                None => 16,
            };
            &&& d.calibration == (given.aa is Some)
            &&& given.aa matches Some(binary) ==> d.baseline == binary && d.candidate == binary
            &&& given.baseline matches Some(binary) ==> d.baseline == binary
            &&& given.candidate matches Some(binary) ==> d.candidate == binary
            &&& d.held_out == given.held_out
            &&& d.direct == is_direct(given)
            &&& given.measure matches Some(measure) ==> d.measure == measure
            &&& given.measure is None ==> d.measure == "scan"@
            &&& given.count matches Some(n) ==> d.count == n
            &&& given.count is None ==> d.count == 10_000
            &&& given.sessions matches Some(n) ==> d.sessions == n
            &&& given.sessions is None ==> d.sessions == 50
            &&& given.seeds.len() > 0 ==> d.seeds == given.seeds
            &&& given.seeds.len() == 0 ==> d.seeds == seq![42u64]
            &&& given.schedule matches Some(orders) ==> d.schedule == orders && d.order_seed is None
            &&& given.schedule is None ==> {
                &&& d.schedule == schedule_of(blocks, order_seed)
                &&& d.order_seed == Some(order_seed)
            }
            &&& d.subject_argv == given.subject_argv
            &&& d.baseline_argv == given.baseline_argv
            &&& d.candidate_argv == given.candidate_argv
            &&& d.baseline_args == given.baseline_args
            &&& d.candidate_args == given.candidate_args
            &&& given.subject_args matches Some(args) ==> d.subject_args == args
            &&& given.subject_args is None ==> d.subject_args.len() == 0
            &&& d.target_speedup == given.target_speedup
            &&& given.timeout_ms matches Some(n) ==> d.timeout_ms == n
            &&& given.timeout_ms is None ==> d.timeout_ms == 300_000
            &&& given.max_output_bytes matches Some(n) ==> d.max_output_bytes == n
            &&& given.max_output_bytes is None ==> d.max_output_bytes == 16_777_216
        }),
{
}

// ---------------------------------------------------------------------------
// The flags of a campaign.
// ---------------------------------------------------------------------------

/// What a setting is, for the flag that sets it. Numbers are in decimal, seeds in a list.
pub open spec fn setting_of(settings: Settings, flag: Flag) -> Seq<Seq<char>> {
    match flag {
        Flag::Bench => seq![settings.bench],
        Flag::Paired => seq![settings.paired],
        Flag::BaselineImpl => seq![settings.baseline_impl],
        Flag::CandidateImpl => seq![settings.candidate_impl],
        Flag::Id => seq![settings.id],
        Flag::Hypothesis => seq![settings.hypothesis],
        Flag::CorporaDir => seq![settings.corpora_dir],
        Flag::Log => seq![settings.log],
        Flag::MainCount => seq![decimal(settings.main_count as nat)],
        Flag::MainSessions => seq![decimal(settings.main_sessions as nat)],
        Flag::MainBlocks => seq![decimal(settings.main_blocks as nat)],
        Flag::PathologicalCount => seq![decimal(settings.path_count as nat)],
        Flag::PathologicalSessions => seq![decimal(settings.path_sessions as nat)],
        Flag::PathologicalBlocks => seq![decimal(settings.path_blocks as nat)],
        Flag::OrderSeed => seq![decimal(settings.order_seed as nat)],
        Flag::Seed => all_decimal(settings.seeds),
        Flag::HeldOut => seq![
            if settings.held_out {
                "true"@
            } else {
                "false"@
            },
        ],
    }
}

/// Whether `text` is what `value` says for a flag.
pub open spec fn flag_means(flag: Flag, value: Seq<char>, text: Seq<char>) -> bool {
    match flag {
        Flag::MainCount
        | Flag::MainSessions
        | Flag::PathologicalCount
        | Flag::PathologicalSessions
        | Flag::OrderSeed
        | Flag::Seed => number_in(value, 0xffff_ffff_ffff_ffff) matches Some(n) && text == decimal(
            n,
        ),
        Flag::MainBlocks | Flag::PathologicalBlocks => number_in(value, usize::MAX as nat) matches
            Some(n) && text == decimal(n),
        _ => text == value,
    }
}

/// A flag sets what its value says, and nothing else; a seed is added to the others.
pub proof fn flags_keep_to_themselves(
    settings: Settings,
    flag: Flag,
    value: Seq<char>,
    other: Flag,
)
    requires
        flag != Flag::HeldOut,
    ensures
        with_flag(settings, flag, value) is Ok <==> exists|text: Seq<char>| #[trigger]
            flag_means(flag, value, text),
        with_flag(settings, flag, value) matches Ok(more) ==> {
            &&& other != flag ==> setting_of(more, other) == setting_of(settings, other)
            &&& setting_of(more, flag).len() > 0
            &&& flag_means(flag, value, setting_of(more, flag).last())
            &&& flag == Flag::Seed ==> setting_of(more, flag).drop_last() == setting_of(
                settings,
                flag,
            )
        },
{
    if let Ok(more) = with_flag(settings, flag, value) {
        assert(flag_means(flag, value, setting_of(more, flag).last()));
        if flag == Flag::Seed {
            assert(setting_of(more, flag).drop_last() =~= setting_of(settings, flag));
        }
    }
    if exists|text: Seq<char>| #[trigger] flag_means(flag, value, text) {
        let text = choose|text: Seq<char>| #[trigger] flag_means(flag, value, text);
        assert(flag_means(flag, value, text));
    }
}

/// The settings that no flag of the rest of the command line sets stay as they are, and the
/// last flag for a setting has the last word.
pub proof fn last_flags_have_the_last_word(
    args: Seq<Seq<char>>,
    at: int,
    settings: Settings,
    flag: Flag,
)
    requires
        0 <= at,
        settings_from(args, at, settings) is Ok,
    ensures
        ({
            let end = settings_from(args, at, settings)->Ok_0;
            let stands_from = |k: int|
                exists|i: int|
                    k <= i < args.len() && flag_named(#[trigger] args[i]) == Some(flag);
            &&& !stands_from(at) ==> setting_of(end, flag) == setting_of(settings, flag)
            &&& at < args.len() ==> {
                let here = flag_named(args[at]);
                &&& here is Some
                &&& here == Some(flag) && flag != Flag::HeldOut && !stands_from(at + 2) ==> {
                    &&& at + 1 < args.len()
                    &&& setting_of(end, flag).len() > 0
                    &&& flag_means(flag, args[at + 1], setting_of(end, flag).last())
                }
            }
            &&& at < args.len() && flag_named(args[at]) == Some(Flag::HeldOut) ==> end.held_out
            &&& settings.held_out ==> end.held_out
        }),
    decreases args.len() - at,
{
    let end = settings_from(args, at, settings)->Ok_0;
    if at < args.len() {
        let here = flag_named(args[at])->0;
        if here == Flag::HeldOut {
            let more = Settings { held_out: true, ..settings };
            last_flags_have_the_last_word(args, at + 1, more, flag);
            if flag != Flag::HeldOut {
                assert(setting_of(more, flag) == setting_of(settings, flag));
            }
        } else {
            let more = with_flag(settings, here, args[at + 1])->Ok_0;
            flags_keep_to_themselves(settings, here, args[at + 1], flag);
            last_flags_have_the_last_word(args, at + 2, more, flag);
        }
    }
}

/// A campaign needs its programs, its corpora, its log, both matchers, a name and a hypothesis.
/// Without seeds it uses one of its own.
pub proof fn campaigns_need_their_settings(args: Seq<Seq<char>>)
    ensures
        settings_in(args) is Ok <==> (settings_from(args, 0, default_settings()) matches Ok(s)
            && s.bench.len() > 0 && s.paired.len() > 0 && s.corpora_dir.len() > 0 && s.log.len() > 0
            && s.baseline_impl.len() > 0 && s.candidate_impl.len() > 0 && s.id.len() > 0
            && s.hypothesis.len() > 0),
        settings_in(args) matches Ok(settings) ==> {
            let s = settings_from(args, 0, default_settings())->Ok_0;
            &&& settings.seeds == (if s.seeds.len() > 0 {
                s.seeds
            } else {
                seq![42u64]
            })
            &&& settings.bench == s.bench && settings.paired == s.paired
            &&& settings.baseline_impl == s.baseline_impl
            &&& settings.candidate_impl == s.candidate_impl
            &&& settings.id == s.id && settings.hypothesis == s.hypothesis
            &&& settings.corpora_dir == s.corpora_dir && settings.log == s.log
            &&& settings.main_count == s.main_count && settings.main_sessions == s.main_sessions
            &&& settings.main_blocks == s.main_blocks && settings.path_blocks == s.path_blocks
            &&& settings.path_count == s.path_count && settings.path_sessions == s.path_sessions
            &&& settings.order_seed == s.order_seed && settings.held_out == s.held_out
        },
        default_settings().order_seed == 1,
        !default_settings().held_out,
        default_settings().seeds.len() == 0,
        default_settings().main_count == 0 && default_settings().path_count == 0,
        default_settings().main_sessions == 0 && default_settings().path_sessions == 0,
        default_settings().main_blocks == 0 && default_settings().path_blocks == 0,
{
}

// ---------------------------------------------------------------------------
// The switches of a subject.
// ---------------------------------------------------------------------------

/// What was said for a switch, if anything was. Numbers are in decimal.
pub open spec fn said_for(task: Task, switch: Switch) -> Seq<Seq<char>> {
    match switch {
        Switch::Impl => listed(task.impl_name),
        Switch::Corpus => listed(task.corpus),
        Switch::Check => listed(task.check),
        Switch::CountOf => listed(task.count_of),
        Switch::Measure => listed(task.measure),
        Switch::Seed => listed_number(task.seed),
        Switch::Sessions => listed_number(task.sessions),
        Switch::Count => listed_number(task.count),
        Switch::SubjectArgs => listed(task.subject_args),
        Switch::ArtifactId => listed(task.gate_artifact_id),
        Switch::WorkloadId => listed(task.gate_workload_id),
    }
}

/// What a value says for a switch: a number in decimal for the work, else itself.
pub open spec fn switch_text(switch: Switch, value: Seq<char>) -> Option<Seq<char>> {
    if switch == Switch::Seed || switch == Switch::Sessions || switch == Switch::Count {
        match number_in(value, 0xffff_ffff_ffff_ffff) {
            Some(n) => Some(decimal(n)),
            None => None,
        }
    } else {
        Some(value)
    }
}

/// A switch sets what its value says, and nothing else.
pub proof fn subject_switches_keep_to_themselves(
    task: Task,
    switch: Switch,
    value: Seq<char>,
    other: Switch,
)
    ensures
        with_switch(task, switch, value) is Ok <==> switch_text(switch, value) is Some,
        with_switch(task, switch, value) matches Ok(more) ==> {
            &&& said_for(more, switch) == seq![switch_text(switch, value)->0]
            &&& other != switch ==> said_for(more, other) == said_for(task, other)
        },
{
}

/// What no switch of the rest of the command line sets stays as it is, and the last switch
/// has the last word.
pub proof fn last_switches_have_the_last_word(
    args: Seq<Seq<char>>,
    at: int,
    task: Task,
    switch: Switch,
)
    requires
        0 <= at,
        task_from(args, at, task) is Ok,
    ensures
        ({
            let end = task_from(args, at, task)->Ok_0;
            let stands_from = |k: int|
                exists|i: int|
                    k <= i < args.len() && switch_named(#[trigger] args[i]) == Some(switch);
            &&& !stands_from(at) ==> said_for(end, switch) == said_for(task, switch)
            &&& at < args.len() ==> {
                &&& switch_named(args[at]) is Some
                &&& at + 1 < args.len()
                &&& switch_named(args[at]) == Some(switch) && !stands_from(at + 2) ==> said_for(
                    end,
                    switch,
                ) == seq![switch_text(switch, args[at + 1])->0]
            }
        }),
    decreases args.len() - at,
{
    if at < args.len() {
        let here = switch_named(args[at])->0;
        let more = with_switch(task, here, args[at + 1])->Ok_0;
        subject_switches_keep_to_themselves(task, here, args[at + 1], switch);
        last_switches_have_the_last_word(args, at + 2, more, switch);
    }
}

/// Opaque arguments name the matcher and the corpus, and change nothing else of a task.
pub proof fn opaque_arguments_name_matcher_and_corpus(
    task: Task,
    words: Seq<Seq<char>>,
    i: int,
    switch: Switch,
)
    requires
        0 <= i,
    ensures
        switch != Switch::Impl && switch != Switch::Corpus ==> said_for(
            merged(task, words, i),
            switch,
        ) == said_for(task, switch),
        i + 1 < words.len() && words[i] == "--impl"@ && (forall|j: int|
            i + 2 <= j < words.len() ==> #[trigger] words[j] != "--impl"@) ==> merged(
            task,
            words,
            i,
        ).impl_name == Some(words[i + 1]),
        i + 1 < words.len() && words[i] == "--corpus"@ && (forall|j: int|
            i + 2 <= j < words.len() ==> #[trigger] words[j] != "--corpus"@) ==> merged(
            task,
            words,
            i,
        ).corpus == Some(words[i + 1]),
        (forall|j: int| i <= j < words.len() ==> #[trigger] words[j] != "--impl"@) ==> merged(
            task,
            words,
            i,
        ).impl_name == task.impl_name,
        (forall|j: int| i <= j < words.len() ==> #[trigger] words[j] != "--corpus"@) ==> merged(
            task,
            words,
            i,
        ).corpus == task.corpus,
    decreases words.len() + 1 - i,
{
    reveal_strlit("--impl");
    reveal_strlit("--corpus");
    assert("--impl"@.len() != "--corpus"@.len());
    if i < words.len() {
        if words[i] == "--impl"@ {
            let more = Task { impl_name: crate::subject::word_at(words, i + 1), ..task };
            opaque_arguments_name_matcher_and_corpus(more, words, i + 2, switch);
        } else if words[i] == "--corpus"@ {
            let more = Task { corpus: crate::subject::word_at(words, i + 1), ..task };
            opaque_arguments_name_matcher_and_corpus(more, words, i + 2, switch);
        } else {
            opaque_arguments_name_matcher_and_corpus(task, words, i + 1, switch);
        }
    }
}

/// Whether a switch and a value that says something for it stand at `at`.
pub open spec fn is_switch_at(args: Seq<Seq<char>>, at: int) -> bool {
    &&& 0 <= at && at + 1 < args.len()
    &&& args[at] != "-h"@ && args[at] != "--help"@
    &&& switch_named(args[at]) matches Some(switch) && switch_text(switch, args[at + 1]) is Some
}

/// The command line of a subject is read if and only if it is made of switches, each with a
/// value that says something for it. A switch may stand more than once.
pub proof fn subject_lines_are_accepted_exactly(args: Seq<Seq<char>>, at: int, task: Task)
    requires
        0 <= at <= args.len(),
    ensures
        task_from(args, at, task) is Ok <==> {
            &&& (args.len() - at) % 2 == 0
            &&& forall|k: int|
                at <= k < args.len() && (k - at) % 2 == 0 ==> #[trigger] is_switch_at(args, k)
        },
    decreases args.len() - at,
{
    if at < args.len() {
        if is_switch_at(args, at) {
            let switch = switch_named(args[at])->0;
            let made = with_switch(task, switch, args[at + 1]);
            subject_switches_keep_to_themselves(task, switch, args[at + 1], switch);
            let more = made->Ok_0;
            subject_lines_are_accepted_exactly(args, at + 2, more);
            if task_from(args, at + 2, more) is Ok {
                assert forall|k: int|
                    at <= k < args.len() && (k - at) % 2 == 0 implies #[trigger] is_switch_at(
                    args,
                    k,
                ) by {
                    if k != at {
                        assert(k >= at + 2 && (k - (at + 2)) % 2 == 0);
                    }
                }
            } else if (args.len() - at) % 2 == 0 {
                let k = choose|k: int|
                    at + 2 <= k < args.len() && (k - (at + 2)) % 2 == 0 && !(
                    #[trigger] is_switch_at(args, k));
                assert((k - at) % 2 == 0);
                assert(!is_switch_at(args, k));
            }
        } else {
            assert((at - at) % 2 == 0);
            assert(!is_switch_at(args, at));
            if at + 1 < args.len() && switch_named(args[at]) is Some {
                let switch = switch_named(args[at])->0;
                subject_switches_keep_to_themselves(task, switch, args[at + 1], switch);
            }
        }
    }
}

/// The reading of a campaign's command line goes on behind a flag: behind its value, if that
/// says something, with what it says in place of what was said before; or right behind the
/// flag that has none.
pub proof fn campaign_lines_go_on(args: Seq<Seq<char>>, at: int, settings: Settings, flag: Flag)
    requires
        0 <= at < args.len(),
        args[at] != "-h"@ && args[at] != "--help"@,
        flag_named(args[at]) == Some(flag),
    ensures
        flag == Flag::HeldOut ==> settings_from(args, at, settings) == settings_from(
            args,
            at + 1,
            (Settings { held_out: true, ..settings }),
        ),
        flag != Flag::HeldOut && at + 1 < args.len() && (exists|text: Seq<char>| #[trigger]
            flag_means(flag, args[at + 1], text)) ==> exists|more: Settings|
            {
                &&& #[trigger] settings_from(args, at + 2, more) == settings_from(
                    args,
                    at,
                    settings,
                )
                &&& flag_means(flag, args[at + 1], setting_of(more, flag).last())
                &&& forall|other: Flag|
                    other != flag ==> #[trigger] setting_of(more, other) == setting_of(
                        settings,
                        other,
                    )
            },
        flag != Flag::HeldOut && (at + 1 >= args.len() || !(exists|text: Seq<char>| #[trigger]
            flag_means(flag, args[at + 1], text))) ==> settings_from(args, at, settings) is Err,
{
    if flag != Flag::HeldOut && at + 1 < args.len() {
        let value = args[at + 1];
        flags_keep_to_themselves(settings, flag, value, flag);
        if let Ok(more) = with_flag(settings, flag, value) {
            assert(settings_from(args, at + 2, more) == settings_from(args, at, settings));
            assert forall|other: Flag| other != flag implies #[trigger] setting_of(more, other)
                == setting_of(settings, other) by {
                flags_keep_to_themselves(settings, flag, value, other);
            }
        }
    }
}

/// Whether `c` is the letter `capital`, in either case.
pub open spec fn is_letter(c: char, capital: char) -> bool {
    c == capital || 'a' <= c <= 'z' && c as int - 'a' as int == capital as int - 'A' as int
}

/// Whether the four letters of `word` are those of `order`, in any case.
pub open spec fn spells_order(word: Seq<char>, order: BlockOrder) -> bool {
    let (a, b) = if order == BlockOrder::Abba {
        ('A', 'B')
    } else {
        ('B', 'A')
    };
    &&& word.len() == 4
    &&& is_letter(word[0], a) && is_letter(word[1], b) && is_letter(word[2], b) && is_letter(
        word[3],
        a,
    )
}

/// Whether `word` stands in `text` with nothing but white space around it.
pub open spec fn stands_alone(text: Seq<char>, before: Seq<char>, word: Seq<char>) -> bool {
    &&& is_blank(before)
    &&& before.len() + word.len() <= text.len()
    &&& before + word == text.take((before.len() + word.len()) as int)
    &&& is_blank(text.skip((before.len() + word.len()) as int))
}

/// A text names an order if and only if it is the four letters of the order, in any case, with
/// nothing but white space before and behind them.
pub proof fn orders_are_named_in_any_case(text: Seq<char>, order: BlockOrder)
    ensures
        order_named(text) == Some(order) <==> exists|before: Seq<char>, word: Seq<char>|
            spells_order(word, order) && #[trigger] stands_alone(text, before, word),
{
    let (head, tail) = trimming_takes_white_ends(text);
    let kept = trimmed(text);
    reveal_strlit("ABBA");
    reveal_strlit("BAAB");
    assert("ABBA"@[0] == 'A' && "BAAB"@[0] == 'B');
    lemma_order_spelled(kept, order);
    assert(order_named(text) == Some(order) <==> upper(kept) == order.name());
    if order_named(text) == Some(order) {
        assert(text.take((head.len() + kept.len()) as int) =~= head + kept);
        assert(text.skip((head.len() + kept.len()) as int) =~= tail);
        assert(stands_alone(text, head, kept));
    }
    if exists|before: Seq<char>, word: Seq<char>|
        spells_order(word, order) && #[trigger] stands_alone(text, before, word) {
        let (before, word) = choose|before: Seq<char>, word: Seq<char>|
            spells_order(word, order) && #[trigger] stands_alone(text, before, word);
        let after = text.skip((before.len() + word.len()) as int);
        assert(text =~= before + word + after) by {
            assert(text =~= text.take((before.len() + word.len()) as int) + after);
        }
        lemma_order_spelled(word, order);
        lemma_trimmed_alone(text, head, kept, tail, before, word, after);
    }
}

/// A text can be trimmed in one way.
proof fn lemma_trimmed_alone(
    text: Seq<char>,
    head: Seq<char>,
    kept: Seq<char>,
    tail: Seq<char>,
    before: Seq<char>,
    word: Seq<char>,
    after: Seq<char>,
)
    requires
        text == head + kept + tail,
        text == before + word + after,
        is_blank(head) && is_blank(tail) && is_blank(before) && is_blank(after),
        kept.len() > 0 ==> !is_white(kept[0]) && !is_white(kept.last()),
        word.len() > 0,
        !is_white(word[0]) && !is_white(word.last()),
    ensures
        kept == word,
{
    let n = text.len() as int;
    assert(text[before.len() as int] == word[0]);
    if kept.len() == 0 {
        let i = before.len() as int;
        if i < head.len() {
            assert(text[i] == head[i]);
        } else {
            assert(text[i] == tail[i - head.len()]);
        }
    }
    assert(text[head.len() as int] == kept[0]);
    if head.len() < before.len() {
        assert(text[head.len() as int] == before[head.len() as int]);
    }
    if before.len() < head.len() {
        assert(text[before.len() as int] == head[before.len() as int]);
    }
    assert(text[n - tail.len() - 1] == kept.last());
    assert(text[n - after.len() - 1] == word.last());
    if tail.len() < after.len() {
        let i = n - tail.len() - 1;
        assert(text[i] == after[i - before.len() - word.len()]);
    }
    if after.len() < tail.len() {
        let i = n - after.len() - 1;
        assert(text[i] == tail[i - head.len() - kept.len()]);
    }
    assert(kept =~= text.subrange(head.len() as int, n - tail.len()));
    assert(word =~= text.subrange(before.len() as int, n - after.len()));
}

proof fn lemma_order_spelled(word: Seq<char>, order: BlockOrder)
    ensures
        upper(word) == order.name() <==> spells_order(word, order),
        spells_order(word, order) ==> !is_white(word[0]) && !is_white(word.last()),
{
    reveal_strlit("ABBA");
    reveal_strlit("BAAB");
    let name = order.name();
    assert(upper(word).len() == word.len());
    if word.len() == 4 {
        assert(upper(word)[0] == upper_char(word[0]));
        assert(upper(word)[1] == upper_char(word[1]));
        assert(upper(word)[2] == upper_char(word[2]));
        assert(upper(word)[3] == upper_char(word[3]));
        if spells_order(word, order) {
            assert(upper(word) =~= name);
        }
        if upper(word) == name {
            assert(name[0] == upper_char(word[0]));
            assert(name[1] == upper_char(word[1]));
            assert(name[2] == upper_char(word[2]));
            assert(name[3] == upper_char(word[3]));
        }
    }
}

}
