//! The command line of a one-candidate campaign.
use crate::text::{number_in, parse_number, parse_u64, same_text, views};
use vstd::prelude::*;

verus! {

/// A flag of the command line.
#[derive(Clone, Copy, Debug, PartialEq, Eq, Structural)]
pub enum Flag {
    Bench,
    Paired,
    BaselineImpl,
    CandidateImpl,
    Id,
    Hypothesis,
    CorporaDir,
    Log,
    MainCount,
    MainSessions,
    MainBlocks,
    PathologicalCount,
    PathologicalSessions,
    PathologicalBlocks,
    OrderSeed,
    Seed,
    HeldOut,
}

/// The flag that is written `text`.
pub open spec fn flag_named(text: Seq<char>) -> Option<Flag> {
    if text == "--bench"@ {
        Some(Flag::Bench)
    } else if text == "--paired"@ {
        Some(Flag::Paired)
    } else if text == "--baseline-impl"@ {
        Some(Flag::BaselineImpl)
    } else if text == "--candidate-impl"@ {
        Some(Flag::CandidateImpl)
    } else if text == "--id"@ {
        Some(Flag::Id)
    } else if text == "--hypothesis"@ {
        Some(Flag::Hypothesis)
    } else if text == "--corpora-dir"@ {
        Some(Flag::CorporaDir)
    } else if text == "--log"@ {
        Some(Flag::Log)
    } else if text == "--main-count"@ {
        Some(Flag::MainCount)
    } else if text == "--main-sessions"@ {
        Some(Flag::MainSessions)
    } else if text == "--main-blocks"@ {
        Some(Flag::MainBlocks)
    } else if text == "--pathological-count"@ {
        Some(Flag::PathologicalCount)
    } else if text == "--pathological-sessions"@ {
        Some(Flag::PathologicalSessions)
    } else if text == "--pathological-blocks"@ {
        Some(Flag::PathologicalBlocks)
    } else if text == "--order-seed"@ {
        Some(Flag::OrderSeed)
    } else if text == "--seed"@ {
        Some(Flag::Seed)
    } else if text == "--held-out"@ {
        Some(Flag::HeldOut)
    } else {
        None
    }
}

fn find_flag(text: &str) -> (flag: Option<Flag>)
    ensures
        flag == flag_named(text@),
{
    if same_text(text, "--bench") {
        Some(Flag::Bench)
    } else if same_text(text, "--paired") {
        Some(Flag::Paired)
    } else if same_text(text, "--baseline-impl") {
        Some(Flag::BaselineImpl)
    } else if same_text(text, "--candidate-impl") {
        Some(Flag::CandidateImpl)
    } else if same_text(text, "--id") {
        Some(Flag::Id)
    } else if same_text(text, "--hypothesis") {
        Some(Flag::Hypothesis)
    } else if same_text(text, "--corpora-dir") {
        Some(Flag::CorporaDir)
    } else if same_text(text, "--log") {
        Some(Flag::Log)
    } else if same_text(text, "--main-count") {
        Some(Flag::MainCount)
    } else if same_text(text, "--main-sessions") {
        Some(Flag::MainSessions)
    } else if same_text(text, "--main-blocks") {
        Some(Flag::MainBlocks)
    } else if same_text(text, "--pathological-count") {
        Some(Flag::PathologicalCount)
    } else if same_text(text, "--pathological-sessions") {
        Some(Flag::PathologicalSessions)
    } else if same_text(text, "--pathological-blocks") {
        Some(Flag::PathologicalBlocks)
    } else if same_text(text, "--order-seed") {
        Some(Flag::OrderSeed)
    } else if same_text(text, "--seed") {
        Some(Flag::Seed)
    } else if same_text(text, "--held-out") {
        Some(Flag::HeldOut)
    } else {
        None
    }
}

/// How a candidate is taken through its gates and comparisons.
#[derive(Debug, PartialEq, Eq)]
pub struct Config {
    pub bench: String,
    pub paired: String,
    pub baseline_impl: String,
    pub candidate_impl: String,
    pub id: String,
    pub hypothesis: String,
    pub corpora_dir: String,
    pub log: String,
    pub main_count: u64,
    pub main_sessions: u64,
    pub main_blocks: usize,
    pub path_count: u64,
    pub path_sessions: u64,
    pub path_blocks: usize,
    pub order_seed: u64,
    pub seeds: Vec<u64>,
    pub held_out: bool,
}

/// What a configuration says.
pub struct Settings {
    pub bench: Seq<char>,
    pub paired: Seq<char>,
    pub baseline_impl: Seq<char>,
    pub candidate_impl: Seq<char>,
    pub id: Seq<char>,
    pub hypothesis: Seq<char>,
    pub corpora_dir: Seq<char>,
    pub log: Seq<char>,
    pub main_count: u64,
    pub main_sessions: u64,
    pub main_blocks: usize,
    pub path_count: u64,
    pub path_sessions: u64,
    pub path_blocks: usize,
    pub order_seed: u64,
    pub seeds: Seq<u64>,
    pub held_out: bool,
}

impl View for Config {
    type V = Settings;

    open spec fn view(&self) -> Settings {
        Settings {
            bench: self.bench@,
            paired: self.paired@,
            baseline_impl: self.baseline_impl@,
            candidate_impl: self.candidate_impl@,
            id: self.id@,
            hypothesis: self.hypothesis@,
            corpora_dir: self.corpora_dir@,
            log: self.log@,
            main_count: self.main_count,
            main_sessions: self.main_sessions,
            main_blocks: self.main_blocks,
            path_count: self.path_count,
            path_sessions: self.path_sessions,
            path_blocks: self.path_blocks,
            order_seed: self.order_seed,
            seeds: self.seeds@,
            held_out: self.held_out,
        }
    }
}

/// The settings that no flag has changed.
pub open spec fn default_settings() -> Settings {
    Settings {
        bench: Seq::empty(),
        paired: Seq::empty(),
        baseline_impl: Seq::empty(),
        candidate_impl: Seq::empty(),
        id: Seq::empty(),
        hypothesis: Seq::empty(),
        corpora_dir: Seq::empty(),
        log: Seq::empty(),
        main_count: 0,
        main_sessions: 0,
        main_blocks: 0,
        path_count: 0,
        path_sessions: 0,
        path_blocks: 0,
        order_seed: 1,
        seeds: Seq::empty(),
        held_out: false,
    }
}

/// `settings` with `flag` set to `value`, or the complaint about the value.
pub open spec fn with_flag(settings: Settings, flag: Flag, value: Seq<char>) -> Result<
    Settings,
    Seq<char>,
> {
    match flag {
        Flag::Bench => Ok(Settings { bench: value, ..settings }),
        Flag::Paired => Ok(Settings { paired: value, ..settings }),
        Flag::BaselineImpl => Ok(Settings { baseline_impl: value, ..settings }),
        Flag::CandidateImpl => Ok(Settings { candidate_impl: value, ..settings }),
        Flag::Id => Ok(Settings { id: value, ..settings }),
        Flag::Hypothesis => Ok(Settings { hypothesis: value, ..settings }),
        Flag::CorporaDir => Ok(Settings { corpora_dir: value, ..settings }),
        Flag::Log => Ok(Settings { log: value, ..settings }),
        Flag::MainCount => match number_in(value, u64::MAX as nat) {
            Some(n) => Ok(Settings { main_count: n as u64, ..settings }),
            None => Err("bad --main-count"@),
        },
        Flag::MainSessions => match number_in(value, u64::MAX as nat) {
            Some(n) => Ok(Settings { main_sessions: n as u64, ..settings }),
            None => Err("bad --main-sessions"@),
        },
        Flag::MainBlocks => match number_in(value, usize::MAX as nat) {
            Some(n) => Ok(Settings { main_blocks: n as usize, ..settings }),
            None => Err("bad --main-blocks"@),
        },
        Flag::PathologicalCount => match number_in(value, u64::MAX as nat) {
            Some(n) => Ok(Settings { path_count: n as u64, ..settings }),
            None => Err("bad --pathological-count"@),
        },
        Flag::PathologicalSessions => match number_in(value, u64::MAX as nat) {
            Some(n) => Ok(Settings { path_sessions: n as u64, ..settings }),
            None => Err("bad --pathological-sessions"@),
        },
        Flag::PathologicalBlocks => match number_in(value, usize::MAX as nat) {
            Some(n) => Ok(Settings { path_blocks: n as usize, ..settings }),
            None => Err("bad --pathological-blocks"@),
        },
        Flag::OrderSeed => match number_in(value, u64::MAX as nat) {
            Some(n) => Ok(Settings { order_seed: n as u64, ..settings }),
            None => Err("bad --order-seed"@),
        },
        Flag::Seed => match number_in(value, u64::MAX as nat) {
            Some(n) => Ok(Settings { seeds: settings.seeds.push(n as u64), ..settings }),
            None => Err("bad --seed"@),
        },
        Flag::HeldOut => Ok(Settings { held_out: true, ..settings }),
    }
}

/// The settings that `args` make of `settings` from `at` on. A later flag overrides an
/// earlier one; seeds add up. Help is asked for by the complaint `__help__`.
pub open spec fn settings_from(args: Seq<Seq<char>>, at: int, settings: Settings) -> Result<
    Settings,
    Seq<char>,
>
    decreases args.len() - at,
{
    if at >= args.len() {
        Ok(settings)
    } else if args[at] == "-h"@ || args[at] == "--help"@ {
        Err("__help__"@)
    } else {
        match flag_named(args[at]) {
            None => Err("unknown option `"@ + args[at] + "`"@),
            Some(flag) => if flag == Flag::HeldOut {
                settings_from(args, at + 1, Settings { held_out: true, ..settings })
            } else if at + 1 >= args.len() {
                Err("missing value after `"@ + args[at] + "`"@)
            } else {
                match with_flag(settings, flag, args[at + 1]) {
                    Err(e) => Err(e),
                    Ok(more) => settings_from(args, at + 2, more),
                }
            },
        }
    }
}

/// The complaint about the first required setting that is missing.
pub open spec fn missing(settings: Settings) -> Option<Seq<char>> {
    if settings.bench.len() == 0 {
        Some("missing required --bench"@)
    } else if settings.paired.len() == 0 {
        Some("missing required --paired"@)
    } else if settings.corpora_dir.len() == 0 {
        Some("missing required --corpora-dir"@)
    } else if settings.log.len() == 0 {
        Some("missing required --log"@)
    } else if settings.baseline_impl.len() == 0 {
        Some("missing required --baseline-impl"@)
    } else if settings.candidate_impl.len() == 0 {
        Some("missing required --candidate-impl"@)
    } else if settings.id.len() == 0 {
        Some("missing required --id"@)
    } else if settings.hypothesis.len() == 0 {
        Some("missing required --hypothesis"@)
    } else {
        None
    }
}

/// The settings that a command line gives, or the first complaint about it.
pub open spec fn settings_in(args: Seq<Seq<char>>) -> Result<Settings, Seq<char>> {
    match settings_from(args, 0, default_settings()) {
        Err(e) => Err(e),
        Ok(settings) => match missing(settings) {
            Some(complaint) => Err(complaint),
            None => Ok(
                if settings.seeds.len() == 0 {
                    Settings { seeds: seq![42u64], ..settings }
                } else {
                    settings
                },
            ),
        },
    }
}

fn parse_usize(text: &str) -> (value: Option<usize>)
    ensures
        match value {
            Some(v) => number_in(text@, usize::MAX as nat) == Some(v as nat),
            None => number_in(text@, usize::MAX as nat) is None,
        },
{
    match parse_number(text, usize::MAX as u128) {
        Some(v) => Some(v as usize),
        None => None,
    }
}

fn default_config() -> (config: Config)
    ensures
        config@ == default_settings(),
{
    let config = Config {
        bench: String::new(),
        paired: String::new(),
        baseline_impl: String::new(),
        candidate_impl: String::new(),
        id: String::new(),
        hypothesis: String::new(),
        corpora_dir: String::new(),
        log: String::new(),
        main_count: 0,
        main_sessions: 0,
        main_blocks: 0,
        path_count: 0,
        path_sessions: 0,
        path_blocks: 0,
        order_seed: 1,
        seeds: Vec::new(),
        held_out: false,
    };
    proof {
        assert(config.bench@ =~= Seq::empty());
        assert(config.paired@ =~= Seq::empty());
        assert(config.baseline_impl@ =~= Seq::empty());
        assert(config.candidate_impl@ =~= Seq::empty());
        assert(config.id@ =~= Seq::empty());
        assert(config.hypothesis@ =~= Seq::empty());
        assert(config.corpora_dir@ =~= Seq::empty());
        assert(config.log@ =~= Seq::empty());
        assert(config.seeds@ =~= Seq::empty());
    }
    config
}

fn set_flag(config: &mut Config, flag: Flag, value: &str) -> (done: Result<(), String>)
    ensures
        match done {
            Ok(_) => with_flag(old(config)@, flag, value@) == Ok::<Settings, Seq<char>>(
                final(config)@,
            ),
            Err(e) => with_flag(old(config)@, flag, value@) == Err::<Settings, Seq<char>>(e@),
        },
{
    match flag {
        Flag::Bench => config.bench = value.to_owned(),
        Flag::Paired => config.paired = value.to_owned(),
        Flag::BaselineImpl => config.baseline_impl = value.to_owned(),
        Flag::CandidateImpl => config.candidate_impl = value.to_owned(),
        Flag::Id => config.id = value.to_owned(),
        Flag::Hypothesis => config.hypothesis = value.to_owned(),
        Flag::CorporaDir => config.corpora_dir = value.to_owned(),
        Flag::Log => config.log = value.to_owned(),
        Flag::MainCount => match parse_u64(value) {
            Some(n) => config.main_count = n,
            None => return Err("bad --main-count".to_owned()),
        },
        Flag::MainSessions => match parse_u64(value) {
            Some(n) => config.main_sessions = n,
            None => return Err("bad --main-sessions".to_owned()),
        },
        Flag::MainBlocks => match parse_usize(value) {
            Some(n) => config.main_blocks = n,
            None => return Err("bad --main-blocks".to_owned()),
        },
        Flag::PathologicalCount => match parse_u64(value) {
            Some(n) => config.path_count = n,
            None => return Err("bad --pathological-count".to_owned()),
        },
        Flag::PathologicalSessions => match parse_u64(value) {
            Some(n) => config.path_sessions = n,
            None => return Err("bad --pathological-sessions".to_owned()),
        },
        Flag::PathologicalBlocks => match parse_usize(value) {
            Some(n) => config.path_blocks = n,
            None => return Err("bad --pathological-blocks".to_owned()),
        },
        Flag::OrderSeed => match parse_u64(value) {
            Some(n) => config.order_seed = n,
            None => return Err("bad --order-seed".to_owned()),
        },
        Flag::Seed => match parse_u64(value) {
            Some(n) => config.seeds.push(n),
            None => return Err("bad --seed".to_owned()),
        },
        Flag::HeldOut => config.held_out = true,
    }
    Ok(())
}

/// Parse a command line.
pub fn parse_args(args: &Vec<String>) -> (config: Result<Config, String>)
    ensures
        match config {
            Ok(c) => settings_in(views(args@)) == Ok::<Settings, Seq<char>>(c@)
                && c.seeds.len() > 0,
            Err(e) => settings_in(views(args@)) == Err::<Settings, Seq<char>>(e@),
        },
{
    let mut config = default_config();
    let mut at: usize = 0;
    let ghost texts = views(args@);
    let ghost whole = settings_from(texts, 0, default_settings());
    while at < args.len()
        invariant
            at <= args.len(),
            texts == views(args@),
            whole == settings_from(texts, 0, default_settings()),
            whole == settings_from(texts, at as int, config@),
        decreases args.len() - at,
    {
        let argument = args[at].as_str();
        assert(texts[at as int] == argument@);
        if same_text(argument, "-h") || same_text(argument, "--help") {
            return Err("__help__".to_owned());
        }
        match find_flag(argument) {
            None => {
                return Err("unknown option `".to_owned().concat(argument).concat("`"));
            },
            Some(flag) => {
                if flag == Flag::HeldOut {
                    config.held_out = true;
                    at += 1;
                } else {
                    if at + 1 >= args.len() {
                        return Err(
                            "missing value after `".to_owned().concat(argument).concat("`"),
                        );
                    }
                    assert(texts[at + 1] == args@[at + 1]@);
                    match set_flag(&mut config, flag, args[at + 1].as_str()) {
                        Ok(_) => {},
                        Err(e) => return Err(e),
                    }
                    at += 2;
                }
            },
        }
    }
    if config.bench.as_str().unicode_len() == 0 {
        return Err("missing required --bench".to_owned());
    }
    if config.paired.as_str().unicode_len() == 0 {
        return Err("missing required --paired".to_owned());
    }
    if config.corpora_dir.as_str().unicode_len() == 0 {
        return Err("missing required --corpora-dir".to_owned());
    }
    if config.log.as_str().unicode_len() == 0 {
        return Err("missing required --log".to_owned());
    }
    if config.baseline_impl.as_str().unicode_len() == 0 {
        return Err("missing required --baseline-impl".to_owned());
    }
    if config.candidate_impl.as_str().unicode_len() == 0 {
        return Err("missing required --candidate-impl".to_owned());
    }
    if config.id.as_str().unicode_len() == 0 {
        return Err("missing required --id".to_owned());
    }
    if config.hypothesis.as_str().unicode_len() == 0 {
        return Err("missing required --hypothesis".to_owned());
    }
    if config.seeds.len() == 0 {
        config.seeds.push(42);
        assert(config.seeds@ =~= seq![42u64]);
    }
    Ok(config)
}

}
