//! Corpus and golden files, and the reference engine.
use optiwork::ast::Regex;
use optiwork::corpus::{
    corpus_bytes, deserialize_corpus, deserialize_golden, serialize_corpus, serialize_golden,
    GoldenPair, Pair,
};
use optiwork::engine::Impl;
use optiwork::oracle::{golden_for, golden_pair, oracle_spans};
use optiwork::scan::Span;
use optiwork::sota;

fn pair(pattern: &str, input: &[u8]) -> Pair {
    Pair {
        pattern: pattern.to_owned(),
        input: input.to_vec(),
    }
}

#[test]
fn corpus_round_trips() {
    let pairs = vec![
        Pair {
            pattern: "a+".to_owned(),
            input: b"aaa".to_vec(),
        },
        Pair {
            pattern: r"\d+".to_owned(),
            input: b"x42y".to_vec(),
        },
    ];
    let bytes = serialize_corpus(&pairs);
    assert_eq!(deserialize_corpus(&bytes).unwrap(), pairs);
}

#[test]
fn golden_round_trips() {
    let pairs = vec![GoldenPair {
        pattern: "a*".to_owned(),
        input: b"aa".to_vec(),
        spans: vec![Span::new(0, 2)],
    }];
    let bytes = serialize_golden(&pairs);
    assert_eq!(deserialize_golden(&bytes).unwrap(), pairs);
}

#[test]
fn rejects_wrong_magic() {
    assert!(deserialize_corpus(b"optiwork-corpus-v2\n....").is_err());
    assert!(deserialize_golden(b"optiwork-corpus-v1\n....").is_err());
}

#[test]
fn a_corpus_is_laid_out_as_written_down() {
    let bytes = serialize_corpus(&[pair("é", b"ab")]);
    let mut expected = b"optiwork-corpus-v1\n".to_vec();
    expected.extend_from_slice(&[1, 0, 0, 0, 2, 0, 0, 0, 0xc3, 0xa9, 2, 0, 0, 0, b'a', b'b']);
    assert_eq!(bytes, expected);
    let golden = serialize_golden(&[GoldenPair {
        pattern: "b".to_owned(),
        input: b"ab".to_vec(),
        spans: vec![Span::new(1, 258)],
    }]);
    let mut expected = b"optiwork-golden-v1\n".to_vec();
    expected.extend_from_slice(&[1, 0, 0, 0, 1, 0, 0, 0, b'b', 2, 0, 0, 0, b'a', b'b']);
    expected.extend_from_slice(&[1, 0, 0, 0, 1, 0, 0, 0, 2, 1, 0, 0]);
    assert_eq!(golden, expected);
}

#[test]
fn what_stands_behind_a_corpus_is_ignored() {
    let pairs = vec![pair("", b"")];
    let mut bytes = serialize_corpus(&pairs);
    bytes.extend_from_slice(b"more");
    assert_eq!(deserialize_corpus(&bytes).unwrap(), pairs);
}

#[test]
fn what_is_cut_off_is_refused() {
    let pairs = vec![pair("a+é", b"xaay"), pair("", b""), pair("b", b"bb")];
    let bytes = serialize_corpus(&pairs);
    assert_eq!(deserialize_corpus(&bytes).unwrap(), pairs);
    for n in 0..bytes.len() {
        assert!(deserialize_corpus(&bytes[..n]).is_err(), "n={n}");
    }
    let golden = golden_for(&pairs).unwrap();
    let bytes = serialize_golden(&golden);
    assert_eq!(deserialize_golden(&bytes).unwrap(), golden);
    for n in 0..bytes.len() {
        assert!(deserialize_golden(&bytes[..n]).is_err(), "n={n}");
    }
}

#[test]
fn each_malformed_file_has_its_complaint() {
    let bytes = serialize_corpus(&[pair("a", b"b")]);
    assert_eq!(
        deserialize_corpus(&bytes[..20]).unwrap_err(),
        "unexpected end of file while reading u32"
    );
    assert_eq!(
        deserialize_corpus(&bytes[..bytes.len() - 1]).unwrap_err(),
        "unexpected end of file while reading blob"
    );
    assert_eq!(
        deserialize_corpus(b"").unwrap_err(),
        "not an optiwork-corpus-v1 file"
    );
    assert_eq!(
        deserialize_golden(&bytes).unwrap_err(),
        "not an optiwork-golden-v1 file"
    );
    let mut broken = serialize_corpus(&[pair("a", b"b")]);
    let at = broken.len() - 6;
    broken[at] = 0xff;
    assert_eq!(deserialize_corpus(&broken).unwrap_err(), "pattern is not UTF-8");
}

#[test]
fn corpus_bytes_are_the_bytes_of_the_inputs() {
    assert_eq!(corpus_bytes(&[]), 0);
    assert_eq!(corpus_bytes(&[pair("abc", b"12345"), pair("", b"67")]), 7);
}

#[test]
fn matches_known_spans() {
    let spans = |pattern: &str, input: &str| -> Vec<(usize, usize)> {
        let compiled = sota::compile_all(&[pair(pattern, b"")]).unwrap();
        let mut out = Vec::new();
        sota::find_all(&compiled[0], input.as_bytes(), &mut out);
        out.iter().map(|s| (s.start, s.end)).collect()
    };
    assert_eq!(spans("abc", "abcabc"), vec![(0, 3), (3, 6)]);
    assert_eq!(spans(r"\d+", "x42y7"), vec![(1, 3), (4, 5)]);
    // leftmost-first, same as the oracle
    assert_eq!(spans("a|ab", "ab"), vec![(0, 1)]);
}

#[test]
fn the_reference_engine_replaces_what_was_found_before() {
    let pairs = [pair("b+", b"abbab"), pair("x", b"")];
    let compiled = sota::compile_all(&pairs).unwrap();
    let mut out = vec![Span::new(9, 9)];
    assert_eq!(sota::scan_pair(&compiled, &pairs, 0, &mut out), 3);
    assert_eq!(out, vec![Span::new(1, 3), Span::new(4, 5)]);
    assert_eq!(sota::covered_bytes(&out), 3);
    assert_eq!(sota::scan_pair(&compiled, &pairs, 1, &mut out), 0);
    assert!(out.is_empty());
}

#[test]
fn the_reference_engine_names_what_it_refuses() {
    let complaint = oracle_spans("(", b"").unwrap_err();
    assert!(complaint.starts_with("oracle rejected pattern `(`: "), "{complaint}");
    let complaint = match sota::compile_all(&[pair("a", b""), pair("[", b"")]) {
        Ok(_) => panic!("accepted"),
        Err(e) => e,
    };
    assert!(complaint.starts_with("regex crate rejected pattern `[`: "), "{complaint}");
    assert!(golden_for(&[pair("a", b""), pair("(", b"")]).is_err());
}

#[test]
fn golden_vectors_hold_the_spans_of_the_reference_engine() {
    let golden = golden_for(&[pair("a*", b"aab"), pair("é", "é".as_bytes())]).unwrap();
    assert_eq!(golden.len(), 2);
    assert_eq!(golden[0].pattern, "a*");
    assert_eq!(golden[0].input, b"aab");
    assert_eq!(golden[0].spans, vec![Span::new(0, 2), Span::new(3, 3)]);
    assert_eq!(golden[1].spans, vec![Span::new(0, 2)]);
    let lifted = golden_pair(&pair("x", b"y"), vec![Span::new(0, 1)]);
    assert_eq!(lifted.pattern, "x");
    assert_eq!(lifted.input, b"y");
    assert_eq!(lifted.spans, vec![Span::new(0, 1)]);
}

#[test]
fn every_matcher_equals_the_reference_engine_on_the_corpus() {
    let mut haystack = vec![b'x'; 8192];
    for at in [500, 2100, 4300, 7000] {
        haystack[at..at + 6].copy_from_slice(b"needle");
    }
    let pairs = [
        pair("a*", b""),
        pair("a*", b"xxx"),
        pair("", b"ab"),
        pair("b?", b"bbb"),
        pair("(a*)*", b"aaaa"),
        pair("a*b*", b"xx"),
        pair("^abc", b"abcdef"),
        pair("^abc", b"xabcdef"),
        pair("c$", b"abca"),
        pair("^a*c$", b"aaac"),
        pair("^$", b""),
        pair("^[a-z]+$", b"hi!"),
        pair("^(cat|dog)$", b"cat"),
        pair("^(a|b)+c$", b"ababc"),
        pair("(ing|ed)$", b"walked"),
        pair("a?a?a?b", b"aab"),
        pair("a.*b", b"aXbYaZb"),
        pair("[0-9]+\\.[0-9]+", b"pi=3.14159"),
        pair("a|ab", b"abab"),
        pair("ab|a", b"abab"),
        pair("a+a", b"aaaa"),
        pair("(a|b)*c", b"aabbc"),
        pair(".", "café".as_bytes()),
        pair("[^a]", "café".as_bytes()),
        pair("c.f.", "café".as_bytes()),
        pair("needle", &haystack),
        pair("(a|b)*a(b|a)", b"aaaaaaaaaaaaaaaab"),
        pair("(a+)+", b"aaaaaaaaaaaaaaaaaaaaaaaa"),
    ];
    for golden in golden_for(&pairs).unwrap() {
        let re = Regex::new(&golden.pattern).unwrap();
        for matcher in [Impl::Naive, Impl::Thompson, Impl::Prefilter, Impl::LazyDfa] {
            let mut out = Vec::new();
            matcher.find_all(&re, &golden.input, &mut out);
            assert_eq!(out, golden.spans, "matcher={matcher:?} pattern={:?}", golden.pattern);
        }
    }
}
