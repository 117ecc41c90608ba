//! Regex matchers that find the same matches, and the rules by which their speed is
//! compared.
//!
//! The matchers: [`ast`] and [`parser`] read a pattern, [`naive`] backtracks, [`thompson`]
//! runs a virtual machine over it, [`prefilter`] skips to a literal first, [`lazy_dfa`]
//! builds an automaton as it goes, and [`engine`] puts them behind one contract. [`grammar`]
//! says how patterns are written and what they mean. [`automaton`] and [`lockstep`] say what
//! the matchers compute, [`language`] that it is a match, [`preference`] which one, and
//! [`agreement`] that it is the same one. [`scan`] collects matches, [`byte_class`] holds
//! sets of bytes, [`corpus`] what is matched, [`layout`] says how that is stored, and
//! [`oracle`] and [`sota`] call the `regex` crate.
//!
//! The measurements: [`subject`] is what is measured, [`record`] reads what it reports,
//! [`arguments`] and [`paired`] compare two programs block by block, [`config`] and
//! [`campaign`] take one candidate through its gates and comparisons, [`design`], [`echo`]
//! and [`ladder`] a whole list of them. [`reading`] says what command lines mean, [`journal`]
//! what is logged. [`handover`] shows that what these programs tell each other is understood,
//! and [`text`] takes texts apart and puts them together.
pub mod agreement;
pub mod arguments;
pub mod ast;
pub mod automaton;
pub mod byte_class;
pub mod campaign;
pub mod config;
pub mod corpus;
pub mod design;
pub mod echo;
pub mod engine;
pub mod grammar;
pub mod handover;
pub mod journal;
pub mod ladder;
pub mod language;
pub mod layout;
pub mod lazy_dfa;
pub mod lockstep;
pub mod naive;
pub mod oracle;
pub mod paired;
pub mod parser;
pub mod preference;
pub mod prefilter;
pub mod reading;
pub mod record;
pub mod scan;
pub mod sota;
pub mod subject;
pub mod text;
pub mod thompson;
