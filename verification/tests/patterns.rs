//! Patterns, byte classes and the agreement of the matchers.
use optiwork::ast::{nullable, Node, Regex};
use optiwork::byte_class::ByteClass;
use optiwork::engine::{find_all, Impl};
use optiwork::lazy_dfa::{Dfa, DfaCache};
use optiwork::oracle::oracle_spans;
use optiwork::parser::parse;
use optiwork::prefilter::leading_literal_prefix;
use optiwork::scan::{scan_matches, Span};
use optiwork::thompson::{pike_find, Inst, Program};

const ALL: [Impl; 4] = [Impl::Naive, Impl::Thompson, Impl::Prefilter, Impl::LazyDfa];

fn spans(matcher: Impl, pattern: &str, input: &[u8]) -> Vec<(usize, usize)> {
    let re = Regex::new(pattern).unwrap();
    let mut out = Vec::new();
    matcher.find_all(&re, input, &mut out);
    out.iter().map(|s| (s.start, s.end)).collect()
}

fn complaint(pattern: &str) -> String {
    Regex::new(pattern).unwrap_err()
}

#[test]
fn each_syntax_error_has_its_complaint() {
    assert_eq!(complaint("a\\"), "trailing backslash");
    assert_eq!(complaint("[a"), "unterminated character class");
    assert_eq!(complaint("[z-a]"), "invalid class range");
    assert_eq!(complaint("(a"), "unbalanced `(`");
    assert_eq!(complaint("*a"), "quantifier with nothing to repeat");
    assert_eq!(complaint("a)"), "unexpected byte `)` after pattern");
    assert_eq!(complaint("[\\^]"), "`\\^` is not a valid escape");
    assert_eq!(complaint("[\\$]"), "`\\$` is not a valid escape");
}

#[test]
fn parse_gives_the_tree_of_a_pattern() {
    assert!(matches!(parse("").unwrap(), Node::Empty));
    assert!(matches!(parse("a").unwrap(), Node::Class(_)));
    assert!(matches!(parse("a*").unwrap(), Node::Star(_)));
    assert!(matches!(parse("a|b").unwrap(), Node::Alt(_)));
    assert!(matches!(parse("ab").unwrap(), Node::Concat(_)));
    assert!(matches!(parse("^").unwrap(), Node::StartAnchor));
    assert!(matches!(parse("$").unwrap(), Node::EndAnchor));
    assert!(parse("(").is_err());
    let re = Regex::new("a+").unwrap();
    assert_eq!(re.source, "a+");
}

#[test]
fn escapes_work_inside_and_outside_classes() {
    for matcher in ALL {
        assert_eq!(spans(matcher, r"[\d]+", b"x42y"), vec![(1, 3)]);
        assert_eq!(spans(matcher, r"[\w-]+", b" a-b "), vec![(1, 4)]);
        assert_eq!(spans(matcher, r"[\]]", b"]"), vec![(0, 1)]);
        assert_eq!(spans(matcher, r"\s+", b"a \t\nb"), vec![(1, 4)]);
        assert_eq!(spans(matcher, r"\^", b"^"), vec![(0, 1)]);
        assert_eq!(spans(matcher, r"\D", b"1a"), vec![(1, 2)]);
    }
}

#[test]
fn nullable_patterns_are_those_that_match_the_empty_string() {
    for pattern in ["", "a*", "a?", "^", "$", "(a|)", "a*b*", "(a*)+"] {
        assert!(nullable(&Regex::new(pattern).unwrap()), "pattern={pattern:?}");
        assert_eq!(spans(Impl::Naive, pattern, b""), vec![(0, 0)], "pattern={pattern:?}");
    }
    for pattern in ["a", "a+", "a*b", "(a|b)", "a|bc"] {
        assert!(!nullable(&Regex::new(pattern).unwrap()), "pattern={pattern:?}");
        assert!(spans(Impl::Naive, pattern, b"").is_empty(), "pattern={pattern:?}");
    }
}

#[test]
fn byte_classes_are_sets_of_bytes() {
    for b in 0..=255u8 {
        assert!(!ByteClass::empty().matches(b));
        assert_eq!(ByteClass::dot().matches(b), b != b'\n');
        assert_eq!(ByteClass::byte(7).matches(b), b == 7);
        assert_eq!(ByteClass::range(10, 20).matches(b), (10..=20).contains(&b));
        assert_eq!(ByteClass::digit().matches(b), b.is_ascii_digit());
        assert_eq!(ByteClass::word().matches(b), b.is_ascii_alphanumeric() || b == b'_');
        assert_eq!(
            ByteClass::space().matches(b),
            matches!(b, b' ' | b'\t' | b'\n' | b'\r' | 0x0b | 0x0c)
        );
        let both = ByteClass::digit().union(&ByteClass::byte(b'x'));
        assert_eq!(both.matches(b), b.is_ascii_digit() || b == b'x');
        assert_eq!(ByteClass::digit().negate().matches(b), !b.is_ascii_digit());
    }
    assert_eq!(ByteClass::byte(7).single_byte(), Some(7));
    assert_eq!(ByteClass::empty().single_byte(), None);
    assert_eq!(ByteClass::digit().single_byte(), None);
}

#[test]
fn names_select_matchers() {
    assert_eq!(Impl::parse("naive").unwrap(), Impl::Naive);
    assert_eq!(Impl::parse("thompson").unwrap(), Impl::Thompson);
    assert_eq!(Impl::parse("prefilter").unwrap(), Impl::Prefilter);
    assert_eq!(
        Impl::parse("fast").unwrap_err(),
        "unknown impl `fast` (expected naive|thompson|prefilter)"
    );
    assert_eq!(Impl::LazyDfa.as_str(), "lazy_dfa");
    assert!(Impl::parse(Impl::LazyDfa.as_str()).is_err());
    for matcher in [Impl::Naive, Impl::Thompson, Impl::Prefilter] {
        assert_eq!(Impl::parse(matcher.as_str()).unwrap(), matcher);
    }
}

#[test]
fn matches_are_appended() {
    let re = Regex::new("b").unwrap();
    for matcher in ALL {
        let mut out = vec![Span::new(7, 9)];
        matcher.find_all(&re, b"abab", &mut out);
        assert_eq!(out, vec![Span::new(7, 9), Span::new(1, 2), Span::new(3, 4)]);
    }
    let mut out = Vec::new();
    find_all(&re, b"ab", &mut out);
    assert_eq!(out, vec![Span::new(1, 2)]);
}

#[test]
fn matches_lie_one_behind_the_other() {
    for (pattern, input) in [("a*", "baaab"), ("b?", "bbb"), ("", "ab"), ("(a|b)*", "abxab")] {
        for matcher in ALL {
            let found = spans(matcher, pattern, input.as_bytes());
            for pair in found.windows(2) {
                assert!(pair[0].1 <= pair[1].0);
                assert!(pair[1].0 < pair[1].1 || pair[0].1 < pair[1].0);
            }
            assert!(found.iter().all(|s| s.0 <= s.1 && s.1 <= input.len()));
        }
    }
}

/// What every matcher and the `regex` crate find.
fn agreed(pattern: &str, input: &str) -> Vec<(usize, usize)> {
    let expected: Vec<(usize, usize)> = oracle_spans(pattern, input.as_bytes())
        .unwrap()
        .iter()
        .map(|s| (s.start, s.end))
        .collect();
    for matcher in ALL {
        let found = spans(matcher, pattern, input.as_bytes());
        assert_eq!(found, expected, "{matcher:?} pattern={pattern:?} input={input:?}");
    }
    expected
}

#[test]
fn loops_over_what_can_be_empty_match_alike() {
    assert_eq!(agreed("(|a)+", "a"), vec![(0, 0), (1, 1)]);
    assert_eq!(agreed("(|a)*", "a"), vec![(0, 0), (1, 1)]);
    assert_eq!(agreed("(|a)+", "b"), vec![(0, 0), (1, 1)]);
    assert_eq!(agreed("(a?(|b))*", "ab"), vec![(0, 1), (2, 2)]);
    assert_eq!(agreed("(a|)+", "aa"), vec![(0, 2)]);
    assert_eq!(agreed("(a*)*", "aaaa"), vec![(0, 4)]);
    assert_eq!(agreed("(a?b?)*", "abba"), vec![(0, 4)]);
    assert_eq!(agreed("(a*b*)+", "aabb"), vec![(0, 4)]);
    assert_eq!(agreed("(a*|b)*", "abab"), vec![(0, 4)]);
    for pattern in ["(a*|b)+", "((a*)*b)+", "(|a|b)*b", "((|a)+b?)*", "(a?(|b)+)+", "(^|a)*", "(a|$)*"] {
        for input in ["", "a", "ab", "abab", "aabab", "bba"] {
            agreed(pattern, input);
        }
    }
}

/// A small generator of numbers.
struct Numbers(u64);

impl Numbers {
    fn below(&mut self, n: u64) -> u64 {
        self.0 = self.0.wrapping_mul(6364136223846793005).wrapping_add(1442695040888963407);
        (self.0 >> 33) % n
    }
}

/// A pattern whose loops often repeat what can be empty.
fn looping_pattern(numbers: &mut Numbers, depth: usize) -> String {
    let mut branches = Vec::new();
    for _ in 0..1 + numbers.below(3) {
        let mut branch = String::new();
        for _ in 0..numbers.below(3) {
            let unit = match numbers.below(if depth < 3 { 8 } else { 4 }) {
                0 | 1 => "a".to_owned(),
                2 => "b".to_owned(),
                3 => "[ab]".to_owned(),
                _ => format!("({})", looping_pattern(numbers, depth + 1)),
            };
            branch.push_str(&unit);
            branch.push_str(["", "*", "+", "?"][numbers.below(4) as usize]);
        }
        branches.push(branch);
    }
    branches.join("|")
}

#[test]
fn matchers_agree_with_each_other_and_with_the_regex_crate() {
    let mut numbers = Numbers(7);
    for _ in 0..4000 {
        let pattern = looping_pattern(&mut numbers, 0);
        let length = numbers.below(7);
        let input: String = (0..length).map(|_| ["a", "b", "c"][numbers.below(3) as usize]).collect();
        agreed(&pattern, &input);
    }
}

#[test]
fn an_anchored_run_ends_where_backtracking_ends() {
    for (pattern, input, end) in [("(|a)+", "aa", 0), ("(a?(|b))*", "ab", 1), ("(a|b)*", "abb", 3)] {
        let re = Regex::new(pattern).unwrap();
        let prog = Program::new(&re.ast);
        assert_eq!(pike_find(&prog, input.as_bytes(), 0, false), Some((0, end)));
        assert_eq!(spans(Impl::Naive, pattern, input.as_bytes())[0], (0, end));
    }
}

#[test]
fn a_choice_without_branches_matches_nowhere() {
    let never = Regex { source: "never".to_owned(), ast: Node::Alt(Vec::new()) };
    for matcher in ALL {
        let mut out = Vec::new();
        matcher.find_all(&never, b"ab", &mut out);
        assert!(out.is_empty());
    }
    let maybe = Regex {
        source: "maybe".to_owned(),
        ast: Node::Star(Box::new(Node::Alt(Vec::new()))),
    };
    for matcher in ALL {
        let mut out = Vec::new();
        matcher.find_all(&maybe, b"a", &mut out);
        assert_eq!(out, vec![Span::new(0, 0), Span::new(1, 1)]);
    }
}

#[test]
fn an_automaton_gives_up_only_at_its_cap() {
    let re = Regex::new("(a|b)*a(a|b)").unwrap();
    let mut dfa = Dfa::build(Program::new(&re.ast));
    let mut out = Vec::new();
    for input in ["abab", "", "bbb", "aabbab"] {
        out.clear();
        dfa.find_all(input.as_bytes(), &mut out);
        assert!(!dfa.overflowed());
        let mut expected = Vec::new();
        Impl::Thompson.find_all(&re, input.as_bytes(), &mut expected);
        assert_eq!(out, expected);
    }
}

#[test]
fn an_automaton_finds_what_the_machine_finds_whatever_came_before() {
    for pattern in ["(a|b)*a(a|b)", "(|a)*b", "a+|b", "(a?(|b))*"] {
        let re = Regex::new(pattern).unwrap();
        let prog = Program::new(&re.ast);
        let mut dfa = Dfa::build(Program::new(&re.ast));
        for input in ["abab", "b", "", "cabcb"] {
            for scan in 0..input.len() + 2 {
                let hit = dfa.cached_find(input.as_bytes(), scan);
                assert!(!dfa.overflowed());
                assert_eq!(hit, pike_find(&prog, input.as_bytes(), scan, true));
            }
        }
    }
}

/// The instructions of a pattern, each in a few letters.
fn listing(pattern: &str) -> Vec<String> {
    let re = Regex::new(pattern).unwrap();
    let prog = Program::new(&re.ast);
    let letter = |class: &ByteClass| if class.matches(b'a') { "a" } else { "b" };
    prog.insts()
        .iter()
        .map(|inst| match inst {
            Inst::Byte(class) => format!("byte {}", letter(class)),
            Inst::Split(x, y) => format!("split {x} {y}"),
            Inst::Jmp(x) => format!("jmp {x}"),
            Inst::Match => "match".to_owned(),
            Inst::StartAssert => "start".to_owned(),
            Inst::EndAssert => "end".to_owned(),
        })
        .collect()
}

#[test]
fn patterns_compile_to_known_programs() {
    assert_eq!(
        listing("(a|b)*"),
        ["split 1 6", "split 2 4", "byte a", "jmp 5", "byte b", "jmp 0", "match"]
    );
    assert_eq!(listing("a*b"), ["split 1 3", "byte a", "jmp 0", "byte b", "match"]);
    assert_eq!(listing("a+"), ["byte a", "split 0 2", "match"]);
    assert_eq!(listing("^a?$"), ["start", "split 2 3", "byte a", "end", "match"]);
    // A body that may be empty is followed by a fork of its own.
    assert_eq!(
        listing("(a*)*"),
        ["split 1 5", "split 2 4", "byte a", "jmp 1", "split 1 5", "match"]
    );
}

#[test]
fn matches_are_byte_offsets_into_any_bytes() {
    for matcher in ALL {
        assert_eq!(spans(matcher, "é+", "cafécafé".as_bytes()), vec![(3, 5), (8, 10)]);
        assert_eq!(spans(matcher, "[^a]+", &[0xff, b'a', 0x00]), vec![(0, 1), (2, 3)]);
        assert_eq!(spans(matcher, ".", b"\n"), vec![]);
    }
}

#[test]
fn a_literal_prefix_is_found_where_there_is_one() {
    let prefix = |pattern: &str| leading_literal_prefix(&Regex::new(pattern).unwrap().ast);
    assert_eq!(prefix("needle"), Some(b"needle".to_vec()));
    assert_eq!(prefix("ab*c"), Some(b"a".to_vec()));
    assert_eq!(prefix("abc+"), Some(b"ab".to_vec()));
    assert_eq!(prefix("a|b"), None);
    assert_eq!(prefix("[ab]c"), None);
    // The literal is looked for, and what follows it must match too.
    assert_eq!(
        spans(Impl::Prefilter, "key=[0-9]+", b"key= key=12 key=x key=7"),
        vec![(5, 11), (18, 23)]
    );
}

#[test]
fn one_search_can_be_anchored_or_not() {
    let re = Regex::new("b+").unwrap();
    let prog = Program::new(&re.ast);
    assert_eq!(pike_find(&prog, b"abb", 0, true), Some((1, 3)));
    assert_eq!(pike_find(&prog, b"abb", 0, false), None);
    assert_eq!(pike_find(&prog, b"abb", 1, false), Some((1, 3)));
}

#[test]
fn a_scan_skips_an_empty_match_at_the_end_of_a_match() {
    // A search that finds `[1, 2)` and an empty match everywhere else.
    let mut out = Vec::new();
    scan_matches(
        3,
        |at: usize| if at <= 1 { Some((1, 2)) } else { Some((at, at)) },
        &mut out,
    );
    assert_eq!(out, vec![Span::new(1, 2), Span::new(3, 3)]);
}

#[test]
fn automata_are_kept_from_call_to_call() {
    let mut cache = DfaCache::new();
    for _ in 0..3 {
        for pattern in ["a+b", "(a|b)*c", "a*", "^a", "needle"] {
            for input in ["aab aabbc", "needle", ""] {
                let re = Regex::new(pattern).unwrap();
                let mut expected = Vec::new();
                let mut found = Vec::new();
                Impl::Thompson.find_all(&re, input.as_bytes(), &mut expected);
                cache.find_all(&re, input.as_bytes(), &mut found);
                assert_eq!(found, expected, "pattern={pattern:?} input={input:?}");
            }
        }
    }
}

#[test]
fn an_automaton_that_grows_too_large_gives_way() {
    // The states of this pattern double with each of the last tests.
    let mut pattern = "(a|b)*a".to_owned();
    for _ in 0..14 {
        pattern.push_str("(a|b)");
    }
    let mut input = String::new();
    let mut state = 12345u64;
    for _ in 0..30000 {
        state = state.wrapping_mul(6364136223846793005).wrapping_add(1442695040888963407);
        input.push(if state >> 63 == 0 { 'a' } else { 'b' });
    }
    let expected = spans(Impl::Thompson, &pattern, input.as_bytes());
    assert_eq!(spans(Impl::LazyDfa, &pattern, input.as_bytes()), expected);
}
