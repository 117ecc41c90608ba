//! The matchers, on texts whose matches are known and against each other.
use optiwork::ast::Regex;
use optiwork::engine::Impl;

fn spans_by(impl_: Impl, re: &str, input: &str) -> Vec<(usize, usize)> {
    let compiled = Regex::new(re).unwrap();
    let mut out = Vec::new();
    impl_.find_all(&compiled, input.as_bytes(), &mut out);
    out.iter().map(|s| (s.start, s.end)).collect()
}

fn spans(re: &str, input: &str) -> Vec<(usize, usize)> {
    spans_by(Impl::Naive, re, input)
}

fn t_spans(re: &str, input: &str) -> Vec<(usize, usize)> {
    spans_by(Impl::Thompson, re, input)
}

fn dfa_spans(re: &str, input: &str) -> Vec<(usize, usize)> {
    spans_by(Impl::LazyDfa, re, input)
}

#[test]
fn literal_matches() {
    assert_eq!(spans("abc", "abcabc"), vec![(0, 3), (3, 6)]);
    assert_eq!(spans("abc", "xxabcyyabc"), vec![(2, 5), (7, 10)]);
    assert!(spans("abc", "xyz").is_empty());
}

#[test]
fn dot_and_anchors() {
    assert_eq!(spans(".", "ab"), vec![(0, 1), (1, 2)]);
    assert_eq!(spans("^a", "ba"), vec![]);
    assert_eq!(spans("^a", "ab"), vec![(0, 1)]);
    assert_eq!(spans("c$", "abc"), vec![(2, 3)]);
    assert_eq!(spans("c$", "cca"), vec![]);
}

#[test]
fn classes_ranges_and_negation() {
    assert_eq!(spans("[0-9]+", "ab12cd3"), vec![(2, 4), (6, 7)]);
    assert_eq!(spans("[^0-9]+", "12ab3cd"), vec![(2, 4), (5, 7)]);
    assert_eq!(spans(r"\d+", "x42y7"), vec![(1, 3), (4, 5)]);
    assert_eq!(spans(r"\w+", "  hi_1 "), vec![(2, 6)]);
}

#[test]
fn alternation_is_leftmost_first() {
    // leftmost-first: `a|ab` picks the first alternative; at position 1 ('b')
    // neither arm matches, so only one match results.
    assert_eq!(spans("a|ab", "ab"), vec![(0, 1)]);
    assert_eq!(spans("ab|a", "ab"), vec![(0, 2)]);
}

#[test]
fn greedy_quantifiers_backtrack() {
    // No trailing empty match after a non-empty match (oracle rule).
    assert_eq!(spans("a*", "aaa"), vec![(0, 3)]);
    assert_eq!(spans("a+a", "aaaa"), vec![(0, 4)]);
    assert_eq!(spans("a?b", "b"), vec![(0, 1)]);
    assert_eq!(spans("a?b", "ab"), vec![(0, 2)]);
}

#[test]
fn empty_matches_advance_one_byte() {
    // Zero-width matches at every position (incl. end), none adjacent to a
    // non-empty match.
    assert_eq!(spans("a*", "xx"), vec![(0, 0), (1, 1), (2, 2)]);
    assert_eq!(spans("", "ab"), vec![(0, 0), (1, 1), (2, 2)]);
    assert_eq!(spans("a*", "aaabaaa"), vec![(0, 3), (4, 7)]);
    assert_eq!(spans("a*", ""), vec![(0, 0)]);
}

#[test]
fn group_and_nested_star() {
    assert_eq!(spans("(ab)+", "ababab"), vec![(0, 6)]);
    assert_eq!(spans("(a|b)*c", "aabbc"), vec![(0, 5)]);
}

#[test]
fn parser_rejects_bad_syntax() {
    assert!(Regex::new("(").is_err());
    assert!(Regex::new(")").is_err());
    assert!(Regex::new("[abc").is_err());
    assert!(Regex::new("*").is_err());
    assert!(Regex::new("a(b").is_err());
    assert!(Regex::new("\\").is_err());
    assert!(Regex::new("[z-a]").is_err());
}

#[test]
fn escapes_for_metacharacters() {
    assert_eq!(spans(r"\.", ".x."), vec![(0, 1), (2, 3)]);
    assert_eq!(spans(r"a\*b", "a*b"), vec![(0, 3)]);
}

#[test]
fn finds_non_overlapping_matches() {
    assert_eq!(spans("ab", "abxabab"), vec![(0, 2), (3, 5), (5, 7)]);
}

#[test]
fn catastrophic_still_correct_on_short_input() {
    // Exponential in naive, but the answer is the empty set.
    let input = "a".repeat(20) + "X";
    assert!(spans("(a+)+b", &input).is_empty());
    // A matching variant still resolves to the leftmost-first span.
    assert_eq!(spans("a+", "aaaa"), vec![(0, 4)]);
}

#[test]
fn prefilter_matches_naive_on_prefix_patterns() {
    // Patterns with a leading literal — these activate the prefilter.
    let cases: &[(&str, &str)] = &[
        ("needle", "xneedle neex needle y"),
        ("abc", "abcabc zzz abc"),
        ("ab", "ababab"),
        ("ca", "café café"), // multibyte: 'c','a' are the leading literal bytes
        ("xyzq", "no match here"),
    ];
    for (pattern, input) in cases {
        let naive = spans_by(Impl::Naive, pattern, input);
        let pref = spans_by(Impl::Prefilter, pattern, input);
        assert_eq!(naive, pref, "pattern={pattern:?} input={input:?}");
    }
}

#[test]
fn prefilter_matches_naive_on_delegated_patterns() {
    // Patterns without a ≥2 literal prefix delegate to Thompson.
    let cases: &[(&str, &str)] = &[
        ("a+", "aaaa"),
        ("a*", "xx"),
        ("(ab)+", "abababx"),
        (".*", "abc"),
        ("a|ab", "abab"),
        ("^a", "ab"),
    ];
    for (pattern, input) in cases {
        let naive = spans_by(Impl::Naive, pattern, input);
        let pref = spans_by(Impl::Prefilter, pattern, input);
        assert_eq!(naive, pref, "pattern={pattern:?} input={input:?}");
    }
}

#[test]
fn prefilter_handles_overlapping_literal_runs() {
    // "aa" in "aaaa" matches at 0 and 2 (non-overlapping).
    assert_eq!(spans_by(Impl::Prefilter, "aa", "aaaa"), vec![(0, 2), (2, 4)]);
}

#[test]
fn prefilter_skips_partial_literal_hits() {
    // "ab" literal occurs four times, but only the last is followed by 'c'.
    assert_eq!(
        spans_by(Impl::Prefilter, "abc", "ab ab abd abc"),
        vec![(10, 13)]
    );
}

#[test]
fn matches_naive_on_basics() {
    assert_eq!(t_spans("abc", "abcabc"), vec![(0, 3), (3, 6)]);
    assert_eq!(t_spans("a+", "aaaa"), vec![(0, 4)]);
    assert_eq!(t_spans("a*", "aaa"), vec![(0, 3)]);
    assert_eq!(t_spans("a*", "xx"), vec![(0, 0), (1, 1), (2, 2)]);
    assert_eq!(t_spans("a|ab", "ab"), vec![(0, 1)]);
    assert_eq!(t_spans("ab|a", "ab"), vec![(0, 2)]);
    assert_eq!(t_spans("(a|b)*c", "aabbc"), vec![(0, 5)]);
    assert_eq!(t_spans("c$", "abc"), vec![(2, 3)]);
}

#[test]
fn catastrophic_inputs_resolve_quickly() {
    // Same answer as naive (empty), in linear time.
    let input = "a".repeat(28) + "X";
    assert!(t_spans("(a+)+b", &input).is_empty());
    // Thompson handles a length naive would choke on.
    let big = format!("{}X", "a".repeat(2000));
    assert!(t_spans("(a+)+b", &big).is_empty());
}

#[test]
fn thompson_equals_naive_on_semantic_corpus() {
    let pairs: &[(&str, &str)] = &[
        ("a*", ""),
        ("a*", "aaa"),
        ("a+", "aaaa"),
        ("a?b", "b"),
        ("a?b", "ab"),
        ("a|ab", "abab"),
        ("ab|a", "abab"),
        ("(a|b)*", "ababab"),
        ("(a|b)*c", "aabbc"),
        ("(ab)+", "abababx"),
        (".*", "abc"),
        ("[0-9]+", "x12y3"),
        (r"\w+", "  hi_1 "),
        ("^a", "ab"),
        ("a$", "ba"),
        ("", "ab"),
        ("(a*)*", "aaaa"),
        ("[a-z]*", "ABCabc"),
    ];
    for (pattern, input) in pairs {
        let re = Regex::new(pattern).unwrap();
        let mut naive_out = Vec::new();
        let mut thompson_out = Vec::new();
        Impl::Naive.find_all(&re, input.as_bytes(), &mut naive_out);
        Impl::Thompson.find_all(&re, input.as_bytes(), &mut thompson_out);
        assert_eq!(
            naive_out, thompson_out,
            "pattern={pattern:?} input={input:?}"
        );
    }
}

#[test]
fn lazy_dfa_matches_thompson_on_basics() {
    assert_eq!(dfa_spans("abc", "abcabc"), vec![(0, 3), (3, 6)]);
    assert_eq!(dfa_spans("a+", "aaaa"), vec![(0, 4)]);
    assert_eq!(dfa_spans("a*", "aaa"), vec![(0, 3)]);
    assert_eq!(dfa_spans("a*", "xx"), vec![(0, 0), (1, 1), (2, 2)]);
    // The leftmost-first crux: `a|ab` picks the first alternative.
    assert_eq!(dfa_spans("a|ab", "ab"), vec![(0, 1)]);
    assert_eq!(dfa_spans("ab|a", "ab"), vec![(0, 2)]);
    assert_eq!(dfa_spans("(a|b)*c", "aabbc"), vec![(0, 5)]);
    // Cross-call caching must not leak state between patterns/inputs.
    assert_eq!(dfa_spans("a+", "aa"), vec![(0, 2)]);
    assert_eq!(dfa_spans("ab|a", "aba"), vec![(0, 2), (2, 3)]);
}

#[test]
fn lazy_dfa_literal_route_matches_naive() {
    // Literal-prefix patterns route to the memchr prefilter; still oracle-correct.
    assert_eq!(
        dfa_spans("needle", "xneedle neex needle y"),
        vec![(1, 7), (13, 19)]
    );
    assert_eq!(dfa_spans("abc", "ab ab abd abc"), vec![(10, 13)]);
}

#[test]
fn lazy_dfa_routes_anchors_to_pike_vm() {
    // Anchored patterns defer to thompson; results must still match the oracle.
    assert_eq!(dfa_spans("^a", "ab"), vec![(0, 1)]);
    assert_eq!(dfa_spans("c$", "abc"), vec![(2, 3)]);
}

/// A small generator of numbers.
struct Rng(u64);
impl Rng {
    fn new(seed: u64) -> Self {
        Self(seed)
    }
    fn next_u64(&mut self) -> u64 {
        self.0 = self.0.wrapping_add(0x9E3779B97F4A7C15);
        let mut z = self.0;
        z = (z ^ (z >> 30)).wrapping_mul(0xBF58476D1CE4E5B9);
        z = (z ^ (z >> 27)).wrapping_mul(0x94D049BB133111EB);
        z ^ (z >> 31)
    }
    fn below(&mut self, n: usize) -> usize {
        (self.next_u64() % n as u64) as usize
    }
}

/// A tiny pattern grammar (no anchors, so it exercises the DFA core, not the
/// fallback). Builds syntactically-valid leftmost-first patterns.
fn gen_pattern(r: &mut Rng, depth: usize) -> String {
    let atom = |r: &mut Rng| -> String {
        match r.below(6) {
            0 => "a".to_owned(),
            1 => "b".to_owned(),
            2 => ".".to_owned(),
            3 => r#"\d"#.to_owned(),
            4 => "[ab]".to_owned(),
            _ => "(a|b)".to_owned(),
        }
    };
    let mut s = String::new();
    let terms = 1 + r.below(3);
    for _ in 0..terms {
        let unit = if depth < 3 && r.below(4) == 0 {
            format!("({})", gen_pattern(r, depth + 1))
        } else {
            atom(r)
        };
        s.push_str(&match r.below(5) {
            0 => format!("{unit}*"),
            1 => format!("{unit}+"),
            2 => format!("{unit}?"),
            _ => unit,
        });
    }
    if r.below(3) == 0 {
        format!("{}|{}", s, atom(r))
    } else {
        s
    }
}

fn gen_input(r: &mut Rng) -> String {
    let alphabet = b"ab012";
    let n = r.below(12);
    (0..n)
        .map(|_| alphabet[r.below(alphabet.len())] as char)
        .collect()
}

#[test]
fn lazy_dfa_equals_thompson_differentially() {
    let corners: &[(&str, &str)] = &[
        ("a*", ""),
        ("a*", "aaa"),
        ("a+", "aaaa"),
        ("a?b", "b"),
        ("a?b", "ab"),
        ("a|ab", "abab"),
        ("ab|a", "abab"),
        ("(a|b)*", "ababab"),
        ("(a|b)*c", "aabbc"),
        ("(ab)+", "abababx"),
        (".*", "abc"),
        ("[0-9]+", "x12y3"),
        (r"\w+", "  hi_1 "),
        ("", "ab"),
        ("(a*)*", "aaaa"),
        ("(a+)+b", "aaaab"),
        ("(a+)+b", "aaaX"),
        ("[a-z]*", "ABCabc"),
        ("a*a*a*", "aaa"),
    ];

    let check = |pattern: &str, input: &str| {
        let Ok(re) = Regex::new(pattern) else {
            return;
        };
        let mut a = Vec::new();
        let mut b = Vec::new();
        Impl::Thompson.find_all(&re, input.as_bytes(), &mut a);
        Impl::LazyDfa.find_all(&re, input.as_bytes(), &mut b);
        assert_eq!(a, b, "pattern={pattern:?} input={input:?}");
    };

    for (p, i) in corners {
        check(p, i);
    }

    let mut rng = Rng::new(0xC0FFEE);
    for _ in 0..20_000 {
        let pattern = gen_pattern(&mut rng, 0);
        let input = gen_input(&mut rng);
        if Regex::new(&pattern).is_ok() {
            check(&pattern, &input);
        }
    }
}
