//! Records, orders and schedules, and the texts they are made of.
use optiwork::record::{
    parse_fixed_record, randomized_schedule, record_field, BlockOrder, FixedRecord, Label,
    ScheduleRng, FIXED_RECORD_VERSION,
};
use optiwork::text::{
    chars_of, compact_output, has_prefix, join_texts, number_text, numbers_list, parse_number,
    parse_u64, same_text, split_lines, split_text, split_words, strip_prefix, text_between,
    text_from, texts_list, trim_chars, upper_chars,
};

#[test]
fn randomized_schedule_is_reproducible() {
    let first = randomized_schedule(32, 91);
    let second = randomized_schedule(32, 91);
    let other = randomized_schedule(32, 92);

    assert_eq!(first, second);
    assert_ne!(first, other);
    assert!(first.contains(&BlockOrder::Abba));
    assert!(first.contains(&BlockOrder::Baab));
}

#[test]
fn record_parser_checks_version_and_fields() {
    let text = "optiwork-fixed-v1\tmode=scan\tseed=42\tcount=200000\tsessions=50\twarmup_sessions=1\trequested=10000000\tcompleted=10000000\tattempts=1234\telapsed_ns=500000000\titems_per_second=20000000.0\toutput_bytes=8000\n";
    assert_eq!(
        parse_fixed_record(text),
        Ok(FixedRecord {
            mode: "scan".to_owned(),
            seed: 42,
            count: 200_000,
            sessions: 50,
            warmup_sessions: 1,
            requested: 10_000_000,
            completed: 10_000_000,
            attempts: 1234,
            elapsed_ns: 500_000_000,
            output_bytes: 8000,
        })
    );
    assert!(parse_fixed_record(&text.replacen("optiwork-fixed-v1", "old", 1)).is_err());
    assert!(parse_fixed_record(&text.replace("elapsed_ns=500000000", "elapsed_ns=0")).is_err());
    assert!(parse_fixed_record(&format!("{text}extra\n")).is_err());
}

#[test]
fn record_parser_rejects_wrong_mode_echo_is_subject_business() {
    // The parser stores whatever mode string the subject emits; the runner,
    // not the parser, checks that it matches what was requested.
    let text = "optiwork-fixed-v1\tmode=whatever\tseed=1\tcount=1\tsessions=1\twarmup_sessions=1\trequested=1\tcompleted=1\tattempts=0\telapsed_ns=1\toutput_bytes=0\n";
    assert_eq!(parse_fixed_record(text).unwrap().mode, "whatever");
}

const GOOD: &str = "optiwork-fixed-v1\tmode=m\tseed=1\tcount=2\tsessions=3\twarmup_sessions=1\trequested=6\tcompleted=6\tattempts=9\telapsed_ns=10\toutput_bytes=0";

fn complaint(text: &str) -> String {
    parse_fixed_record(text).unwrap_err()
}

#[test]
fn each_malformed_record_has_its_complaint() {
    assert!(parse_fixed_record(GOOD).is_ok());
    assert!(parse_fixed_record(&format!("{GOOD}\r\n")).is_ok());
    assert_eq!(complaint(""), "benchmark produced no measurement record");
    assert_eq!(
        complaint(&format!("{GOOD}\n\n")),
        "benchmark produced more than one output line"
    );
    assert_eq!(
        complaint("optiwork-fixed-v2\tmode=m"),
        "unsupported measurement record version `optiwork-fixed-v2`"
    );
    assert_eq!(
        complaint(&GOOD.replace("\tseed=1", "")),
        "measurement record is missing `seed`"
    );
    assert_eq!(
        complaint(&GOOD.replace("\tseed=1", "\tseed=1\tseed=1")),
        "measurement record repeats `seed`"
    );
    assert_eq!(
        complaint(&GOOD.replace("count=2", "count=two")),
        "measurement field `count` is not an integer"
    );
    assert_eq!(
        complaint(&GOOD.replace("count=2", "count=18446744073709551616")),
        "measurement field `count` is not an integer"
    );
    assert_eq!(
        complaint(&GOOD.replace("elapsed_ns=10", "elapsed_ns=0")),
        "measurement elapsed time must be greater than zero"
    );
    // The first field in the order of the record decides.
    assert_eq!(
        complaint(&GOOD.replace("mode=m", "x").replace("seed=1", "y")),
        "measurement record is missing `mode`"
    );
    let wide = GOOD.replace("elapsed_ns=10", "elapsed_ns=18446744073709551616");
    assert_eq!(parse_fixed_record(&wide).unwrap().elapsed_ns, 1 << 64);
    assert_eq!(FIXED_RECORD_VERSION, "optiwork-fixed-v1");
}

#[test]
fn the_order_of_the_fields_and_the_throughput_do_not_matter() {
    let expected = parse_fixed_record(GOOD).unwrap();
    let mut fields: Vec<&str> = GOOD.split('\t').skip(1).collect();
    fields.push("items_per_second=3.5");
    for turn in 0..fields.len() {
        fields.rotate_left(1);
        if turn % 2 == 0 {
            fields.swap(2, 7);
        }
        let line = format!("optiwork-fixed-v1\t{}\n", fields.join("\t"));
        assert_eq!(parse_fixed_record(&line).as_ref(), Ok(&expected));
        let other = line.replace("items_per_second=3.5", "items_per_second=a lot");
        assert_eq!(parse_fixed_record(&other).as_ref(), Ok(&expected));
    }
    // What a record lacks is the same complaint in every order.
    fields.retain(|field| !field.starts_with("seed="));
    let line = format!("optiwork-fixed-v1\t{}", fields.join("\t"));
    assert_eq!(complaint(&line), "measurement record is missing `seed`");
}

#[test]
fn a_field_is_the_only_one_of_its_key() {
    let fields = ["a=1", "b=2", "ab=3", "b=4", "c"];
    assert_eq!(record_field(&fields, "a"), Ok("1"));
    assert_eq!(record_field(&fields, "ab"), Ok("3"));
    assert_eq!(
        record_field(&fields, "b"),
        Err("measurement record repeats `b`".to_owned())
    );
    assert_eq!(
        record_field(&fields, "c"),
        Err("measurement record is missing `c`".to_owned())
    );
}

#[test]
fn orders_are_read_back_and_balanced() {
    for order in [BlockOrder::Abba, BlockOrder::Baab] {
        assert_eq!(BlockOrder::parse(order.as_str()), Ok(order));
        let labels = order.labels();
        assert_eq!(labels.iter().filter(|l| **l == Label::Baseline).count(), 2);
        assert_ne!(labels[0], labels[1]);
        assert_ne!(labels[2], labels[3]);
    }
    assert_eq!(BlockOrder::parse(" \tbaab\u{3000}"), Ok(BlockOrder::Baab));
    assert_eq!(
        BlockOrder::parse("AABB"),
        Err("invalid block order `AABB`; expected `ABBA` or `BAAB`".to_owned())
    );
    assert_eq!(Label::Baseline.as_str(), "A");
    assert_eq!(Label::Candidate.as_str(), "B");
    assert_eq!(
        BlockOrder::Abba.labels(),
        [Label::Baseline, Label::Candidate, Label::Candidate, Label::Baseline]
    );
}

#[test]
fn the_schedule_generator_gives_known_numbers() {
    // The first numbers of SplitMix64 from the seed 1234567.
    let mut rng = ScheduleRng::new(1234567);
    assert_eq!(rng.next_u64(), 6457827717110365317);
    assert_eq!(rng.next_u64(), 3203168211198807973);
    assert_eq!(rng.next_u64(), 9817491932198370423);
    let schedule = randomized_schedule(3, 1234567);
    assert_eq!(schedule, [BlockOrder::Baab, BlockOrder::Baab, BlockOrder::Baab]);
    assert!(randomized_schedule(0, 5).is_empty());
    assert_eq!(randomized_schedule(32, 7)[..8], randomized_schedule(8, 7)[..]);
}

#[test]
fn numbers_are_read_back() {
    for n in [0, 7, 10, 42, 1_000_000, u64::MAX as u128, u128::MAX] {
        assert_eq!(number_text(n), n.to_string());
        assert_eq!(parse_number(&number_text(n), u128::MAX), Some(n));
    }
    assert_eq!(parse_u64("+5"), Some(5));
    assert_eq!(parse_u64("007"), Some(7));
    for text in ["", "+", "-1", " 1", "1 ", "1_0", "0x1", "18446744073709551616", "٣"] {
        assert_eq!(parse_u64(text), None, "text={text:?}");
        assert_eq!(text.parse::<u64>().ok(), None, "text={text:?}");
    }
    assert_eq!(parse_u64("18446744073709551615"), Some(u64::MAX));
    assert_eq!(parse_number("11", 10), None);
}

#[test]
fn texts_are_split_like_those_of_the_standard_library() {
    for text in ["", "a", ",", "a,b", ",a,,b,", "é,ü"] {
        let expected: Vec<String> = text.split(',').map(str::to_owned).collect();
        assert_eq!(split_text(text, ','), expected, "text={text:?}");
    }
    for text in ["", "\n", "a", "a\n", "a\r\nb", "a\n\nb\n", "a\r", "\r\n\r\n", "a\rb\n"] {
        let expected: Vec<String> = text.lines().map(str::to_owned).collect();
        assert_eq!(split_lines(text), expected, "text={text:?}");
    }
    for text in ["", "  ", "a", " a\tb\u{a0}c \u{2003}d\u{85}", "x=1  y=2\n"] {
        let expected: Vec<String> = text.split_whitespace().map(str::to_owned).collect();
        assert_eq!(split_words(text), expected, "text={text:?}");
        assert_eq!(text_from(&trim_chars(&chars_of(text))), text.trim(), "text={text:?}");
    }
    for c in ['\u{0}', '\u{8}', '\u{b}', '\u{1c}', '\u{180e}', '\u{200b}', '\u{202f}', '\u{feff}'] {
        let text = format!("{c}a{c}");
        assert_eq!(text_from(&trim_chars(&chars_of(&text))), text.trim(), "text={text:?}");
    }
}

#[test]
fn texts_are_taken_apart_and_put_together() {
    assert_eq!(strip_prefix("naïve", "naï"), Some("ve"));
    assert_eq!(strip_prefix("na", "nai"), None);
    assert!(has_prefix("abc", "") && has_prefix("abc", "abc") && !has_prefix("abc", "b"));
    assert!(same_text("é", "é") && !same_text("e", "é"));
    assert_eq!(text_between(&chars_of("añb"), 1, 3), "ñb");
    assert_eq!(text_from(&upper_chars(&chars_of("aZé9"))), "AZé9");
    assert_eq!(join_texts(&vec![], ","), "");
    assert_eq!(join_texts(&vec!["a".to_owned(), "b".to_owned()], ", "), "a, b");
    assert_eq!(numbers_list(&vec![42, 7]), format!("{:?}", vec![42, 7]));
    let texts = vec!["--a b".to_owned(), "tab\t\"q\"".to_owned()];
    assert_eq!(texts_list(&texts), format!("{texts:?}"));
}

#[test]
fn diagnostics_are_short_and_on_one_line() {
    assert_eq!(compact_output(b"  one\ntwo\r\n\tthree \n"), "one two   three");
    assert_eq!(compact_output(b"bad \xff byte"), "bad \u{fffd} byte");
    assert_eq!(compact_output("é".repeat(400).as_bytes()), "é".repeat(300));
    assert_eq!(compact_output(b""), "");
}
