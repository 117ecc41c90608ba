//! Building and reading text.
use vstd::prelude::*;
use vstd::utf8::{decode_utf8, valid_utf8};

verus! {

/// `String::push`: append one character.
#[verifier::external_body]
pub(crate) fn push_char(text: &mut String, c: char)
    ensures
        final(text)@ == old(text)@.push(c),
{
    text.push(c)
}

/// `String::from_utf8`: the text that `bytes` is the UTF-8 form of, if it is valid UTF-8.
#[verifier::external_body]
pub(crate) fn utf8_text(bytes: Vec<u8>) -> (text: Option<String>)
    ensures
        match text {
            Some(s) => valid_utf8(bytes@) && s@ == decode_utf8(bytes@),
            None => !valid_utf8(bytes@),
        },
{
    String::from_utf8(bytes).ok()
}

/// The text that `String::from_utf8_lossy` makes of `bytes`.
pub uninterp spec fn lossy_text(bytes: Seq<u8>) -> Seq<char>;

/// `String::from_utf8_lossy`: the text of `bytes`, with a replacement character for what is
/// not UTF-8. Valid UTF-8 is kept as it is.
#[verifier::external_body]
pub(crate) fn read_lossy(bytes: &[u8]) -> (text: String)
    ensures
        text@ == lossy_text(bytes@),
        valid_utf8(bytes@) ==> text@ == decode_utf8(bytes@),
{
    String::from_utf8_lossy(bytes).into_owned()
}

/// The form of `text` that `<str as Debug>::fmt` writes: quoted and escaped.
pub uninterp spec fn quoted(text: Seq<char>) -> Seq<char>;

/// `<str as Debug>::fmt`, through `format!`: the quoted and escaped form of `text`.
#[verifier::external_body]
pub(crate) fn quote(text: &str) -> (form: String)
    ensures
        form@ == quoted(text@),
{
    format!("{:?}", text)
}

/// Whether two texts are equal.
pub fn same_text(a: &str, b: &str) -> (yes: bool)
    ensures
        yes == (a@ == b@),
{
    a.to_owned() == b.to_owned()
}

/// The characters of a text.
pub fn chars_of(text: &str) -> (chars: Vec<char>)
    ensures
        chars@ == text@,
{
    let mut chars: Vec<char> = Vec::new();
    for c in it: text.chars()
        invariant
            chars@ == it.seq().take(it.index()),
            it.seq() == text@,
    {
        chars.push(c);
        assert(it.seq().take(it.index() + 1) =~= it.seq().take(it.index()).push(c));
    }
    assert(text@.take(text@.len() as int) =~= text@);
    chars
}

/// The text made of `chars`.
pub fn text_from(chars: &Vec<char>) -> (text: String)
    ensures
        text@ == chars@,
{
    let mut text = String::new();
    let mut i: usize = 0;
    proof {
        assert(text@ =~= chars@.take(0));
    }
    while i < chars.len()
        invariant
            i <= chars.len(),
            text@ == chars@.take(i as int),
        decreases chars.len() - i,
    {
        push_char(&mut text, chars[i]);
        assert(chars@.take(i + 1) =~= chars@.take(i as int).push(chars@[i as int]));
        i += 1;
    }
    assert(chars@.take(chars.len() as int) =~= chars@);
    text
}

/// The part of `chars` from `from` to `to`, as a text.
pub fn text_between(chars: &Vec<char>, from: usize, to: usize) -> (text: String)
    requires
        from <= to <= chars.len(),
    ensures
        text@ == chars@.subrange(from as int, to as int),
{
    let mut part: Vec<char> = Vec::new();
    let mut i: usize = from;
    while i < to
        invariant
            from <= i <= to <= chars.len(),
            part@ == chars@.subrange(from as int, i as int),
        decreases to - i,
    {
        part.push(chars[i]);
        assert(chars@.subrange(from as int, i + 1) =~= chars@.subrange(from as int, i as int).push(
            chars@[i as int],
        ));
        i += 1;
    }
    text_from(&part)
}

// ---------------------------------------------------------------------------
// Splitting.
// ---------------------------------------------------------------------------

/// The index of the first `c` at or behind `from`; the length if there is none.
pub open spec fn index_from(text: Seq<char>, c: char, from: int) -> int
    decreases text.len() - from,
{
    if from >= text.len() {
        text.len() as int
    } else if text[from] == c {
        from
    } else {
        index_from(text, c, from + 1)
    }
}

/// The pieces of `text` from `from` on between one `c` and the next.
pub open spec fn pieces_from(text: Seq<char>, c: char, from: int) -> Seq<Seq<char>>
    decreases text.len() + 1 - from,
{
    let at = index_from(text, c, from);
    if from < 0 || from > text.len() || at < from || at >= text.len() {
        seq![text.subrange(from, text.len() as int)]
    } else {
        seq![text.subrange(from, at)] + pieces_from(text, c, at + 1)
    }
}

/// The pieces of `text` between one `c` and the next.
pub open spec fn split_on(text: Seq<char>, c: char) -> Seq<Seq<char>> {
    pieces_from(text, c, 0)
}

/// What texts say.
pub open spec fn views(texts: Seq<String>) -> Seq<Seq<char>> {
    texts.map_values(|t: String| t@)
}

/// One more text.
pub proof fn lemma_views_push(texts: Seq<String>, text: String)
    ensures
        views(texts.push(text)) == views(texts).push(text@),
{
    assert(views(texts.push(text)) =~= views(texts).push(text@));
}

/// What a text says, if there is one.
pub open spec fn said(text: Option<String>) -> Option<Seq<char>> {
    match text {
        Some(t) => Some(t@),
        None => None,
    }
}

/// Find the first `c` at or behind `from`.
pub fn find_from(chars: &Vec<char>, c: char, from: usize) -> (at: usize)
    requires
        from <= chars.len(),
    ensures
        at == index_from(chars@, c, from as int),
        from <= at <= chars.len(),
        at < chars.len() ==> chars@[at as int] == c,
{
    let mut i: usize = from;
    while i < chars.len() && chars[i] != c
        invariant
            from <= i <= chars.len(),
            index_from(chars@, c, from as int) == index_from(chars@, c, i as int),
        decreases chars.len() - i,
    {
        i += 1;
    }
    i
}

/// Split a text at every `c`.
pub fn split_text(text: &str, c: char) -> (pieces: Vec<String>)
    ensures
        views(pieces@) == split_on(text@, c),
        pieces.len() > 0,
{
    let chars = chars_of(text);
    let mut pieces: Vec<String> = Vec::new();
    let mut from: usize = 0;
    let ghost whole = split_on(text@, c);
    proof {
        assert(views(pieces@) + whole =~= whole);
    }
    loop
        invariant
            from <= chars.len(),
            chars@ == text@,
            whole == views(pieces@) + pieces_from(text@, c, from as int),
            whole == split_on(text@, c),
        decreases chars.len() - from,
    {
        let at: usize = find_from(&chars, c, from);
        let ghost was = views(pieces@);
        let piece = text_between(&chars, from, at);
        pieces.push(piece);
        assert(views(pieces@) =~= was.push(piece@));
        if at >= chars.len() {
            assert(views(pieces@) =~= was + seq![piece@]);
            return pieces;
        }
        assert(was + (seq![piece@] + pieces_from(text@, c, at + 1)) =~= views(pieces@)
            + pieces_from(text@, c, at + 1));
        from = at + 1;
    }
}

/// `line` without the carriage return at its end.
pub open spec fn chomp(line: Seq<char>) -> Seq<char> {
    if line.len() > 0 && line.last() == '\r' {
        line.drop_last()
    } else {
        line
    }
}

/// The lines of `text` from `from` on. A line ends with a newline, or a carriage return
/// and a newline; the last one may end with the text.
pub open spec fn lines_from(text: Seq<char>, from: int) -> Seq<Seq<char>>
    decreases text.len() + 1 - from,
{
    let at = index_from(text, '\n', from);
    if from < 0 || from >= text.len() {
        Seq::empty()
    } else if at < from || at >= text.len() {
        seq![text.subrange(from, text.len() as int)]
    } else {
        seq![chomp(text.subrange(from, at))] + lines_from(text, at + 1)
    }
}

/// The lines of `text`.
pub open spec fn lines_of(text: Seq<char>) -> Seq<Seq<char>> {
    lines_from(text, 0)
}

/// Split a text into lines.
pub fn split_lines(text: &str) -> (lines: Vec<String>)
    ensures
        views(lines@) == lines_of(text@),
{
    let chars = chars_of(text);
    let mut lines: Vec<String> = Vec::new();
    let mut from: usize = 0;
    let ghost whole = lines_of(text@);
    proof {
        assert(views(lines@) + whole =~= whole);
    }
    while from < chars.len()
        invariant
            from <= chars.len(),
            chars@ == text@,
            whole == views(lines@) + lines_from(text@, from as int),
            whole == lines_of(text@),
        decreases chars.len() - from,
    {
        let at: usize = find_from(&chars, '\n', from);
        let ghost was = views(lines@);
        if at >= chars.len() {
            let line = text_between(&chars, from, at);
            lines.push(line);
            assert(views(lines@) =~= was + seq![line@]);
            return lines;
        }
        let end: usize = if at > from && chars[at - 1] == '\r' {
            at - 1
        } else {
            at
        };
        let line = text_between(&chars, from, end);
        proof {
            let piece = text@.subrange(from as int, at as int);
            if piece.len() > 0 {
                assert(piece.last() == text@[at - 1]);
            }
            assert(line@ =~= chomp(piece));
        }
        lines.push(line);
        assert(views(lines@) =~= was.push(line@));
        assert(was + (seq![line@] + lines_from(text@, at + 1)) =~= views(lines@) + lines_from(
            text@,
            at + 1,
        ));
        from = at + 1;
    }
    assert(views(lines@) + Seq::<Seq<char>>::empty() =~= views(lines@));
    lines
}

// ---------------------------------------------------------------------------
// Prefixes.
// ---------------------------------------------------------------------------

/// Whether `text` begins with `prefix`.
pub open spec fn begins_with(text: Seq<char>, prefix: Seq<char>) -> bool {
    prefix.len() <= text.len() && text.take(prefix.len() as int) == prefix
}

/// What follows `prefix` in `text`, if `text` begins with it.
pub open spec fn behind(text: Seq<char>, prefix: Seq<char>) -> Option<Seq<char>> {
    if begins_with(text, prefix) {
        Some(text.skip(prefix.len() as int))
    } else {
        None
    }
}

/// Whether a text begins with a prefix.
pub fn has_prefix(text: &str, prefix: &str) -> (yes: bool)
    ensures
        yes == begins_with(text@, prefix@),
{
    let all: usize = text.unicode_len();
    let size: usize = prefix.unicode_len();
    if size > all {
        return false;
    }
    assert(text@.subrange(0, size as int) =~= text@.take(size as int));
    same_text(text.substring_char(0, size), prefix)
}

/// Strip a prefix off a text.
pub fn strip_prefix<'a>(text: &'a str, prefix: &str) -> (rest: Option<&'a str>)
    ensures
        match rest {
            Some(r) => behind(text@, prefix@) == Some(r@),
            None => behind(text@, prefix@) is None,
        },
{
    if has_prefix(text, prefix) {
        let size: usize = prefix.unicode_len();
        let all: usize = text.unicode_len();
        assert(text@.subrange(size as int, all as int) =~= text@.skip(size as int));
        Some(text.substring_char(size, all))
    } else {
        None
    }
}

// ---------------------------------------------------------------------------
// White space.
// ---------------------------------------------------------------------------

/// Whether `c` is white space, as Unicode says.
pub open spec fn is_white(c: char) -> bool {
    ||| '\u{9}' <= c <= '\u{d}'
    ||| c == '\u{20}'
    ||| c == '\u{85}'
    ||| c == '\u{a0}'
    ||| c == '\u{1680}'
    ||| '\u{2000}' <= c <= '\u{200a}'
    ||| c == '\u{2028}'
    ||| c == '\u{2029}'
    ||| c == '\u{202f}'
    ||| c == '\u{205f}'
    ||| c == '\u{3000}'
}

fn white(c: char) -> (yes: bool)
    ensures
        yes == is_white(c),
{
    ('\u{9}' <= c && c <= '\u{d}') || c == '\u{20}' || c == '\u{85}' || c == '\u{a0}' || c
        == '\u{1680}' || ('\u{2000}' <= c && c <= '\u{200a}') || c == '\u{2028}' || c == '\u{2029}'
        || c == '\u{202f}' || c == '\u{205f}' || c == '\u{3000}'
}

/// `text` without white space at its start.
pub open spec fn trim_start(text: Seq<char>) -> Seq<char>
    decreases text.len(),
{
    if text.len() > 0 && is_white(text[0]) {
        trim_start(text.drop_first())
    } else {
        text
    }
}

/// `text` without white space at its end.
pub open spec fn trim_end(text: Seq<char>) -> Seq<char>
    decreases text.len(),
{
    if text.len() > 0 && is_white(text.last()) {
        trim_end(text.drop_last())
    } else {
        text
    }
}

/// `text` without white space at its start and its end.
pub open spec fn trimmed(text: Seq<char>) -> Seq<char> {
    trim_end(trim_start(text))
}

/// Trim white space off both ends.
pub fn trim_chars(chars: &Vec<char>) -> (kept: Vec<char>)
    ensures
        kept@ == trimmed(chars@),
{
    let mut from: usize = 0;
    proof {
        assert(chars@.skip(0) =~= chars@);
    }
    while from < chars.len() && white(chars[from])
        invariant
            from <= chars.len(),
            trim_start(chars@) == trim_start(chars@.skip(from as int)),
        decreases chars.len() - from,
    {
        assert(chars@.skip(from as int).drop_first() =~= chars@.skip(from + 1));
        from += 1;
    }
    let ghost rest = chars@.skip(from as int);
    assert(trim_start(chars@) == rest);
    let mut to: usize = chars.len();
    proof {
        assert(chars@.subrange(from as int, to as int) =~= rest);
    }
    while to > from && white(chars[to - 1])
        invariant
            from <= to <= chars.len(),
            trim_end(rest) == trim_end(chars@.subrange(from as int, to as int)),
        decreases to,
    {
        let ghost part = chars@.subrange(from as int, to as int);
        assert(part.last() == chars@[to - 1]);
        assert(part.drop_last() =~= chars@.subrange(from as int, to - 1));
        to -= 1;
    }
    proof {
        let part = chars@.subrange(from as int, to as int);
        if part.len() > 0 {
            assert(part.last() == chars@[to - 1]);
        }
        assert(trim_end(part) == part);
    }
    let mut kept: Vec<char> = Vec::new();
    let mut i: usize = from;
    while i < to
        invariant
            from <= i <= to <= chars.len(),
            kept@ == chars@.subrange(from as int, i as int),
        decreases to - i,
    {
        kept.push(chars[i]);
        assert(chars@.subrange(from as int, i + 1) =~= chars@.subrange(from as int, i as int).push(
            chars@[i as int],
        ));
        i += 1;
    }
    kept
}

/// The runs of `text` from `from` on that hold no white space. `start` is where the run at
/// hand began.
pub open spec fn words_from(text: Seq<char>, start: int, from: int) -> Seq<Seq<char>>
    decreases text.len() - from,
{
    let run = if start < from {
        seq![text.subrange(start, from)]
    } else {
        Seq::empty()
    };
    if from < 0 || from >= text.len() {
        run
    } else if is_white(text[from]) {
        run + words_from(text, from + 1, from + 1)
    } else {
        words_from(text, start, from + 1)
    }
}

/// The words of `text`: its runs without white space.
pub open spec fn words_of(text: Seq<char>) -> Seq<Seq<char>> {
    words_from(text, 0, 0)
}

/// Split a text at white space.
pub fn split_words(text: &str) -> (words: Vec<String>)
    ensures
        views(words@) == words_of(text@),
{
    let chars = chars_of(text);
    let mut words: Vec<String> = Vec::new();
    let mut start: usize = 0;
    let mut i: usize = 0;
    let ghost whole = words_of(text@);
    proof {
        assert(views(words@) + whole =~= whole);
    }
    while i < chars.len()
        invariant
            start <= i <= chars.len(),
            chars@ == text@,
            whole == views(words@) + words_from(text@, start as int, i as int),
            whole == words_of(text@),
        decreases chars.len() - i,
    {
        let ghost was = views(words@);
        if white(chars[i]) {
            let ghost more = words_from(text@, i + 1, i + 1);
            if start < i {
                let word = text_between(&chars, start, i);
                words.push(word);
                assert(views(words@) =~= was.push(word@));
                assert(was + (seq![word@] + more) =~= views(words@) + more);
            } else {
                assert(Seq::<Seq<char>>::empty() + more =~= more);
            }
            start = i + 1;
        }
        i += 1;
    }
    let ghost was = views(words@);
    if start < i {
        let word = text_between(&chars, start, i);
        words.push(word);
        assert(views(words@) =~= was + seq![word@]);
    } else {
        assert(was + Seq::<Seq<char>>::empty() =~= was);
    }
    words
}

// ---------------------------------------------------------------------------
// Letters and numbers.
// ---------------------------------------------------------------------------

/// `c` with an ASCII lower-case letter made upper-case.
pub open spec fn upper_char(c: char) -> char {
    if 'a' <= c <= 'z' {
        ((c as int) - 32) as char
    } else {
        c
    }
}

/// `text` with its ASCII lower-case letters made upper-case.
pub open spec fn upper(text: Seq<char>) -> Seq<char> {
    text.map_values(|c: char| upper_char(c))
}

/// Make ASCII lower-case letters upper-case.
pub fn upper_chars(chars: &Vec<char>) -> (out: Vec<char>)
    ensures
        out@ == upper(chars@),
{
    let mut out: Vec<char> = Vec::new();
    let mut i: usize = 0;
    while i < chars.len()
        invariant
            i <= chars.len(),
            out@ == upper(chars@).take(i as int),
        decreases chars.len() - i,
    {
        let c: char = chars[i];
        let u: char = if 'a' <= c && c <= 'z' {
            (c as u8 - 32) as char
        } else {
            c
        };
        out.push(u);
        assert(upper(chars@)[i as int] == upper_char(c));
        assert(upper(chars@).take(i + 1) =~= upper(chars@).take(i as int).push(u));
        i += 1;
    }
    assert(upper(chars@).take(chars.len() as int) =~= upper(chars@));
    out
}

/// Whether every character is a decimal digit.
pub open spec fn all_digits(text: Seq<char>) -> bool {
    forall|i: int| 0 <= i < text.len() ==> '0' <= #[trigger] text[i] <= '9'
}

/// The number that decimal digits say.
pub open spec fn digits_value(text: Seq<char>) -> nat
    decreases text.len(),
{
    if text.len() == 0 {
        0
    } else {
        digits_value(text.drop_last()) * 10 + (text.last() as int - '0' as int) as nat
    }
}

/// The number not above `max` that `text` says: one or more digits, perhaps behind a `+`.
pub open spec fn number_in(text: Seq<char>, max: nat) -> Option<nat> {
    let digits = if text.len() > 0 && text[0] == '+' {
        text.drop_first()
    } else {
        text
    };
    if digits.len() > 0 && all_digits(digits) && digits_value(digits) <= max {
        Some(digits_value(digits))
    } else {
        None
    }
}

/// More digits make no smaller number.
proof fn lemma_digits_grow(text: Seq<char>, n: int)
    requires
        0 <= n <= text.len(),
        all_digits(text),
    ensures
        digits_value(text.take(n)) <= digits_value(text),
    decreases text.len() - n,
{
    if n < text.len() {
        lemma_digits_grow(text, n + 1);
        assert(text.take(n + 1).drop_last() =~= text.take(n));
        assert(text.take(n + 1).last() == text[n]);
    } else {
        assert(text.take(n) =~= text);
    }
}

/// Parse an integer not above `max`.
pub fn parse_number(text: &str, max: u128) -> (value: Option<u128>)
    ensures
        match value {
            Some(v) => number_in(text@, max as nat) == Some(v as nat),
            None => number_in(text@, max as nat) is None,
        },
{
    let chars = chars_of(text);
    let from: usize = if chars.len() > 0 && chars[0] == '+' {
        1
    } else {
        0
    };
    let ghost digits = chars@.skip(from as int);
    proof {
        if from == 1 {
            assert(digits =~= text@.drop_first());
        } else {
            assert(digits =~= text@);
        }
    }
    if from >= chars.len() {
        return None;
    }
    let mut value: u128 = 0;
    let mut i: usize = from;
    proof {
        assert(digits.take(0) =~= Seq::empty());
    }
    while i < chars.len()
        invariant
            from <= i <= chars.len(),
            digits == chars@.skip(from as int),
            digits.len() == chars.len() - from,
            all_digits(digits.take(i - from)),
            value == digits_value(digits.take(i - from)),
            value <= max,
            number_in(text@, max as nat) == (if all_digits(digits) && digits_value(digits) <= max {
                Some(digits_value(digits))
            } else {
                None
            }),
        decreases chars.len() - i,
    {
        let c: char = chars[i];
        let ghost k = i - from;
        assert(digits[k] == c);
        if !('0' <= c && c <= '9') {
            return None;
        }
        let d: u128 = (c as u8 - 48) as u128;
        proof {
            let more = digits.take(k + 1);
            assert(more.drop_last() =~= digits.take(k));
            assert(more.last() == c);
            assert(digits_value(more) == value * 10 + d);
            assert forall|j: int| 0 <= j < more.len() implies '0' <= #[trigger] more[j] <= '9' by {
                if j < k {
                    assert(more[j] == digits.take(k)[j]);
                }
            }
            if all_digits(digits) {
                lemma_digits_grow(digits, k + 1);
            }
        }
        if value > max / 10 {
            return None;
        }
        if d > max || value * 10 > max - d {
            return None;
        }
        value = value * 10 + d;
        i += 1;
    }
    assert(digits.take(digits.len() as int) =~= digits);
    Some(value)
}

/// Parse a `u64`.
pub fn parse_u64(text: &str) -> (value: Option<u64>)
    ensures
        match value {
            Some(v) => number_in(text@, u64::MAX as nat) == Some(v as nat),
            None => number_in(text@, u64::MAX as nat) is None,
        },
{
    match parse_number(text, u64::MAX as u128) {
        Some(v) => Some(v as u64),
        None => None,
    }
}

/// The decimal digits of `n`.
pub open spec fn decimal(n: nat) -> Seq<char>
    decreases n,
{
    if n < 10 {
        seq![(n + '0' as int) as char]
    } else {
        decimal(n / 10).push((n % 10 + '0' as int) as char)
    }
}

/// Write a number in decimal.
pub fn number_text(n: u128) -> (text: String)
    ensures
        text@ == decimal(n as nat),
    decreases n,
{
    let mut text = if n < 10 {
        String::new()
    } else {
        number_text(n / 10)
    };
    let digit: u8 = (n % 10) as u8;
    push_char(&mut text, (digit + 48) as char);
    assert(text@ =~= decimal(n as nat));
    text
}

proof fn lemma_decimal(n: nat)
    ensures
        decimal(n).len() > 0,
        all_digits(decimal(n)),
        digits_value(decimal(n)) == n,
    decreases n,
{
    let last = (n % 10 + '0' as int) as char;
    if n < 10 {
        assert(decimal(n).drop_last() =~= Seq::empty());
        assert(digits_value(decimal(n).drop_last()) == 0);
    } else {
        lemma_decimal(n / 10);
        assert(decimal(n).drop_last() =~= decimal(n / 10));
        assert forall|i: int| 0 <= i < decimal(n).len() implies '0' <= #[trigger] decimal(n)[i]
            <= '9' by {
            if i < decimal(n / 10).len() {
                assert(decimal(n)[i] == decimal(n / 10)[i]);
            }
        }
    }
}

/// A number that has been written is read back.
pub proof fn number_is_read_back(n: nat, max: nat)
    requires
        n <= max,
    ensures
        number_in(decimal(n), max) == Some(n),
{
    lemma_decimal(n);
    assert(decimal(n)[0] != '+');
}

// ---------------------------------------------------------------------------
// Lists.
// ---------------------------------------------------------------------------

/// `parts` with `between` between one and the next.
pub open spec fn joined(parts: Seq<Seq<char>>, between: Seq<char>) -> Seq<char>
    decreases parts.len(),
{
    if parts.len() == 0 {
        Seq::empty()
    } else if parts.len() == 1 {
        parts[0]
    } else {
        joined(parts.drop_last(), between) + between + parts.last()
    }
}

/// Join texts.
pub fn join_texts(parts: &Vec<String>, between: &str) -> (text: String)
    ensures
        text@ == joined(views(parts@), between@),
{
    let mut text = String::new();
    let mut i: usize = 0;
    let ghost whole = views(parts@);
    assert(text@ =~= Seq::empty());
    while i < parts.len()
        invariant
            i <= parts.len(),
            whole == views(parts@),
            text@ == joined(whole.take(i as int), between@),
        decreases parts.len() - i,
    {
        proof {
            let more = whole.take(i + 1);
            assert(more.drop_last() =~= whole.take(i as int));
            assert(more.last() == parts@[i as int]@);
        }
        if i > 0 {
            text.append(between);
        }
        text.append(parts[i].as_str());
        proof {
            if i == 0 {
                assert(text@ =~= parts@[0]@);
            }
        }
        i += 1;
    }
    assert(whole.take(whole.len() as int) =~= whole);
    text
}

/// The quoted form of each text.
pub open spec fn all_quoted(texts: Seq<Seq<char>>) -> Seq<Seq<char>> {
    texts.map_values(|t: Seq<char>| quoted(t))
}

/// The decimal form of each number.
pub open spec fn all_decimal(numbers: Seq<u64>) -> Seq<Seq<char>> {
    numbers.map_values(|n: u64| decimal(n as nat))
}

/// A list of texts: quoted, with commas, in square brackets.
pub open spec fn list_of_texts(texts: Seq<Seq<char>>) -> Seq<char> {
    "["@ + joined(all_quoted(texts), ", "@) + "]"@
}

/// A list of numbers: with commas, in square brackets.
pub open spec fn list_of_numbers(numbers: Seq<u64>) -> Seq<char> {
    "["@ + joined(all_decimal(numbers), ", "@) + "]"@
}

/// Write a list of texts.
pub fn texts_list(texts: &Vec<String>) -> (list: String)
    ensures
        list@ == list_of_texts(views(texts@)),
{
    let mut forms: Vec<String> = Vec::new();
    let ghost whole = all_quoted(views(texts@));
    let mut i: usize = 0;
    assert(views(forms@) =~= whole.take(0));
    while i < texts.len()
        invariant
            i <= texts.len(),
            whole == all_quoted(views(texts@)),
            views(forms@) == whole.take(i as int),
        decreases texts.len() - i,
    {
        let form = quote(texts[i].as_str());
        proof {
            lemma_views_push(forms@, form);
            assert(whole.take(i + 1) =~= whole.take(i as int).push(form@));
        }
        forms.push(form);
        i += 1;
    }
    assert(whole.take(whole.len() as int) =~= whole);
    "[".to_owned().concat(join_texts(&forms, ", ").as_str()).concat("]")
}

/// Write numbers in decimal.
pub fn number_texts(numbers: &Vec<u64>) -> (forms: Vec<String>)
    ensures
        views(forms@) == all_decimal(numbers@),
{
    let mut forms: Vec<String> = Vec::new();
    let ghost whole = all_decimal(numbers@);
    let mut i: usize = 0;
    assert(views(forms@) =~= whole.take(0));
    while i < numbers.len()
        invariant
            i <= numbers.len(),
            whole == all_decimal(numbers@),
            views(forms@) == whole.take(i as int),
        decreases numbers.len() - i,
    {
        let form = number_text(numbers[i] as u128);
        proof {
            lemma_views_push(forms@, form);
            assert(whole.take(i + 1) =~= whole.take(i as int).push(form@));
        }
        forms.push(form);
        i += 1;
    }
    assert(whole.take(whole.len() as int) =~= whole);
    forms
}

/// Write a list of numbers.
pub fn numbers_list(numbers: &Vec<u64>) -> (list: String)
    ensures
        list@ == list_of_numbers(numbers@),
{
    "[".to_owned().concat(join_texts(&number_texts(numbers), ", ").as_str()).concat("]")
}

// ---------------------------------------------------------------------------
// Diagnostics.
// ---------------------------------------------------------------------------

/// The most characters of a diagnostic that are kept.
pub const DIAGNOSTIC_CHARS: usize = 300;

/// `c`, or a space where it is a line break or a tab.
pub open spec fn flat_char(c: char) -> char {
    if c == '\n' || c == '\r' || c == '\t' {
        ' '
    } else {
        c
    }
}

/// The first characters of `text`, trimmed, on one line.
pub open spec fn compacted(text: Seq<char>) -> Seq<char> {
    let flat = trimmed(text).map_values(|c: char| flat_char(c));
    if flat.len() <= DIAGNOSTIC_CHARS {
        flat
    } else {
        flat.take(DIAGNOSTIC_CHARS as int)
    }
}

/// Make a short one-line diagnostic of what a process wrote.
pub fn compact_output(bytes: &[u8]) -> (line: String)
    ensures
        line@ == compacted(lossy_text(bytes@)),
        valid_utf8(bytes@) ==> line@ == compacted(decode_utf8(bytes@)),
{
    let kept = trim_chars(&chars_of(read_lossy(bytes).as_str()));
    let ghost flat = kept@.map_values(|c: char| flat_char(c));
    let mut line: Vec<char> = Vec::new();
    let mut i: usize = 0;
    while i < kept.len() && i < DIAGNOSTIC_CHARS
        invariant
            i <= kept.len(),
            i <= DIAGNOSTIC_CHARS,
            flat == kept@.map_values(|c: char| flat_char(c)),
            line@ == flat.take(i as int),
        decreases kept.len() - i,
    {
        let c: char = kept[i];
        let kept_char: char = if c == '\n' || c == '\r' || c == '\t' {
            ' '
        } else {
            c
        };
        line.push(kept_char);
        assert(flat[i as int] == kept_char);
        assert(flat.take(i + 1) =~= flat.take(i as int).push(kept_char));
        i += 1;
    }
    assert(flat.take(flat.len() as int) =~= flat);
    text_from(&line)
}

// ---------------------------------------------------------------------------
// What is put together is taken apart again.
// ---------------------------------------------------------------------------

/// Whether `c` does not occur in `text`.
pub open spec fn lacks(text: Seq<char>, c: char) -> bool {
    forall|i: int| 0 <= i < text.len() ==> #[trigger] text[i] != c
}

proof fn lemma_index_from(text: Seq<char>, c: char, from: int, at: int)
    requires
        0 <= from <= at <= text.len(),
        forall|i: int| from <= i < at ==> #[trigger] text[i] != c,
        at < text.len() ==> text[at] == c,
    ensures
        index_from(text, c, from) == at,
    decreases at - from,
{
    if from < at {
        assert(text[from] != c);
        lemma_index_from(text, c, from + 1, at);
    }
}

proof fn lemma_joined_first(parts: Seq<Seq<char>>, between: Seq<char>)
    requires
        parts.len() >= 2,
    ensures
        joined(parts, between) == parts[0] + between + joined(parts.drop_first(), between),
    decreases parts.len(),
{
    let rest = parts.drop_first();
    if parts.len() == 2 {
        assert(parts.drop_last().len() == 1);
        assert(joined(parts.drop_last(), between) == parts[0]);
        assert(joined(rest, between) == parts[1]);
    } else {
        lemma_joined_first(parts.drop_last(), between);
        assert(parts.drop_last().drop_first() =~= rest.drop_last());
        assert(rest.last() == parts.last());
        let middle = joined(rest.drop_last(), between);
        assert(joined(rest, between) == middle + between + parts.last());
        assert(parts[0] + between + middle + between + parts.last() =~= parts[0] + between + (middle
            + between + parts.last()));
    }
}

proof fn lemma_pieces(pre: Seq<char>, parts: Seq<Seq<char>>, c: char)
    requires
        parts.len() > 0,
        forall|i: int| 0 <= i < parts.len() ==> lacks(#[trigger] parts[i], c),
    ensures
        pieces_from(pre + joined(parts, seq![c]), c, pre.len() as int) == parts,
    decreases parts.len(),
{
    let text = pre + joined(parts, seq![c]);
    let from = pre.len() as int;
    let first = parts[0];
    let at = from + first.len();
    assert(lacks(first, c));
    if parts.len() == 1 {
        assert forall|i: int| from <= i < at implies #[trigger] text[i] != c by {
            assert(text[i] == first[i - from]);
        }
        lemma_index_from(text, c, from, at);
        assert(text.subrange(from, text.len() as int) =~= first);
        assert(parts =~= seq![first]);
    } else {
        let rest = parts.drop_first();
        lemma_joined_first(parts, seq![c]);
        let tail = joined(rest, seq![c]);
        let next = pre + first + seq![c];
        assert(text =~= next + tail);
        assert forall|i: int| from <= i < at implies #[trigger] text[i] != c by {
            assert(text[i] == first[i - from]);
        }
        assert(text[at] == c);
        lemma_index_from(text, c, from, at);
        assert forall|i: int| 0 <= i < rest.len() implies lacks(#[trigger] rest[i], c) by {
            assert(rest[i] == parts[i + 1]);
        }
        lemma_pieces(next, rest, c);
        assert(text.subrange(from, at) =~= first);
        assert(seq![first] + rest =~= parts);
    }
}

/// Parts that lack `c` are found again in their join.
pub proof fn joined_parts_are_split(parts: Seq<Seq<char>>, c: char)
    requires
        parts.len() > 0,
        forall|i: int| 0 <= i < parts.len() ==> lacks(#[trigger] parts[i], c),
    ensures
        split_on(joined(parts, seq![c]), c) == parts,
{
    lemma_pieces(Seq::empty(), parts, c);
    assert(Seq::<char>::empty() + joined(parts, seq![c]) =~= joined(parts, seq![c]));
}

/// A line that lacks line breaks is the only line of a text that ends behind it.
pub proof fn one_line_is_read_back(line: Seq<char>)
    requires
        lacks(line, '\n'),
        line.len() > 0,
        line.last() != '\r',
    ensures
        lines_of(line + seq!['\n']) == seq![line],
{
    let text = line + seq!['\n'];
    let at = line.len() as int;
    assert forall|i: int| 0 <= i < at implies #[trigger] text[i] != '\n' by {
        assert(text[i] == line[i]);
    }
    assert(text[at] == '\n');
    lemma_index_from(text, '\n', 0, at);
    assert(text.subrange(0, at) =~= line);
    assert(lines_from(text, at + 1) =~= Seq::empty());
    assert(seq![line] + Seq::<Seq<char>>::empty() =~= seq![line]);
}

/// The parts of a join lack what the join lacks.
pub proof fn lemma_joined_lacks(parts: Seq<Seq<char>>, between: Seq<char>, c: char)
    requires
        forall|i: int| 0 <= i < parts.len() ==> lacks(#[trigger] parts[i], c),
        lacks(between, c),
    ensures
        lacks(joined(parts, between), c),
    decreases parts.len(),
{
    if parts.len() >= 2 {
        let first = parts.drop_last();
        assert forall|i: int| 0 <= i < first.len() implies lacks(#[trigger] first[i], c) by {
            assert(first[i] == parts[i]);
        }
        lemma_joined_lacks(first, between, c);
        let start = joined(first, between);
        let last = parts.last();
        assert(lacks(parts[parts.len() - 1], c));
        let text = joined(parts, between);
        assert forall|i: int| 0 <= i < text.len() implies #[trigger] text[i] != c by {
            if i < start.len() {
                assert(text[i] == start[i]);
            } else if i < start.len() + between.len() {
                assert(text[i] == between[i - start.len()]);
            } else {
                assert(text[i] == last[i - start.len() - between.len()]);
            }
        }
    } else if parts.len() == 1 {
        assert(lacks(parts[0], c));
    }
}

/// A number in decimal holds digits only.
pub proof fn lemma_decimal_lacks(n: nat, c: char)
    requires
        !('0' <= c <= '9'),
    ensures
        lacks(decimal(n), c),
        decimal(n).len() > 0,
{
    lemma_decimal(n);
    assert forall|i: int| 0 <= i < decimal(n).len() implies #[trigger] decimal(n)[i] != c by {
        assert('0' <= decimal(n)[i] <= '9');
    }
}

/// A field: a name, an equals sign and a value.
pub open spec fn field_text(name: Seq<char>, value: Seq<char>) -> Seq<char> {
    name + "="@ + value
}

/// A field begins with a key and an equals sign only if the key is its name.
pub proof fn lemma_field_key(name: Seq<char>, value: Seq<char>, key: Seq<char>)
    requires
        lacks(name, '='),
        lacks(key, '='),
    ensures
        behind(field_text(name, value), key + "="@) == (if name == key {
            Some(value)
        } else {
            None
        }),
{
    reveal_strlit("=");
    let text = field_text(name, value);
    let prefix = key + "="@;
    if begins_with(text, prefix) {
        let head = text.take(prefix.len() as int);
        assert(head[key.len() as int] == '=');
        assert(text[key.len() as int] == '=');
        assert(text[name.len() as int] == '=');
        if key.len() < name.len() {
            assert(text[key.len() as int] == name[key.len() as int]);
        }
        if name.len() < key.len() {
            assert(head[name.len() as int] == key[name.len() as int]);
        }
        assert(name =~= key) by {
            assert forall|i: int| 0 <= i < name.len() implies name[i] == key[i] by {
                assert(head[i] == name[i]);
                assert(head[i] == key[i]);
            }
        }
    }
    if name == key {
        assert(text.take(prefix.len() as int) =~= prefix);
        assert(text.skip(prefix.len() as int) =~= value);
    }
}

/// A text without an equals sign is no field.
pub proof fn lemma_no_field(text: Seq<char>, key: Seq<char>)
    requires
        lacks(text, '='),
    ensures
        behind(text, key + "="@) is None,
{
    reveal_strlit("=");
    let prefix = key + "="@;
    if begins_with(text, prefix) {
        assert(text.take(prefix.len() as int)[key.len() as int] == '=');
        assert(text[key.len() as int] == '=');
    }
}

// ---------------------------------------------------------------------------
// Words that are put together are taken apart again.
// ---------------------------------------------------------------------------

/// Whether `text` holds no white space.
pub open spec fn is_solid(text: Seq<char>) -> bool {
    forall|i: int| 0 <= i < text.len() ==> !is_white(#[trigger] text[i])
}

proof fn lemma_words_behind(a: Seq<char>, b: Seq<char>, start: int, from: int)
    requires
        0 <= start <= from <= b.len(),
    ensures
        words_from(a + b, a.len() + start, a.len() + from) == words_from(b, start, from),
    decreases b.len() - from,
{
    let n = a.len() as int;
    assert((a + b).subrange(n + start, n + from) =~= b.subrange(start, from));
    if from < b.len() {
        assert((a + b)[n + from] == b[from]);
        if is_white(b[from]) {
            lemma_words_behind(a, b, from + 1, from + 1);
        } else {
            lemma_words_behind(a, b, start, from + 1);
        }
    }
}

proof fn lemma_words_before(a: Seq<char>, b: Seq<char>, start: int, from: int)
    requires
        0 <= start <= from <= a.len(),
        b.len() > 0 ==> is_white(b[0]),
    ensures
        words_from(a + b, start, from) == words_from(a, start, from) + words_of(b),
    decreases a.len() - from,
{
    let whole = a + b;
    assert(whole.subrange(start, from) =~= a.subrange(start, from));
    let run = words_from(a, start, a.len() as int);
    if from < a.len() {
        assert(whole[from] == a[from]);
        if is_white(a[from]) {
            lemma_words_before(a, b, from + 1, from + 1);
            let head = if start < from {
                seq![a.subrange(start, from)]
            } else {
                Seq::empty()
            };
            let rest = words_from(a, from + 1, from + 1);
            assert(head + (rest + words_of(b)) =~= (head + rest) + words_of(b));
        } else {
            lemma_words_before(a, b, start, from + 1);
        }
    } else if b.len() == 0 {
        assert(whole =~= a);
        assert(words_of(b) =~= Seq::empty());
        assert(run + words_of(b) =~= run);
    } else {
        assert(whole[from] == b[0]);
        lemma_words_behind(a, b, 1, 1);
        assert(words_of(b) =~= words_from(b, 1, 1));
    }
}

/// A text that begins with white space adds its words to those before it.
pub proof fn lemma_words_add(a: Seq<char>, b: Seq<char>)
    requires
        b.len() > 0 ==> is_white(b[0]),
    ensures
        words_of(a + b) == words_of(a) + words_of(b),
{
    lemma_words_before(a, b, 0, 0);
}

proof fn lemma_words_run(text: Seq<char>, from: int)
    requires
        is_solid(text),
        text.len() > 0,
        0 <= from <= text.len(),
    ensures
        words_from(text, 0, from) == seq![text],
    decreases text.len() - from,
{
    if from < text.len() {
        assert(!is_white(text[from]));
        lemma_words_run(text, from + 1);
    } else {
        assert(text.subrange(0, from) =~= text);
    }
}

/// A text without white space is one word, also behind a space.
pub proof fn lemma_word(text: Seq<char>)
    requires
        is_solid(text),
        text.len() > 0,
    ensures
        words_of(text) == seq![text],
        words_of(seq![' '] + text) == seq![text],
{
    lemma_words_run(text, 0);
    let pre = seq![' '];
    let whole = pre + text;
    assert(whole[0] == ' ');
    lemma_words_behind(pre, text, 0, 0);
    assert(words_of(whole) =~= words_from(whole, 1, 1));
}

/// A number in decimal is one word.
pub proof fn lemma_decimal_is_solid(n: nat)
    ensures
        is_solid(decimal(n)),
{
    lemma_decimal(n);
    assert forall|i: int| 0 <= i < decimal(n).len() implies !is_white(#[trigger] decimal(n)[i]) by {
        assert('0' <= decimal(n)[i] <= '9');
    }
}

/// A field behind a space is one word more.
pub proof fn lemma_words_field(
    text: Seq<char>,
    opening: Seq<char>,
    name: Seq<char>,
    value: Seq<char>,
)
    requires
        opening == seq![' '] + name + seq!['='],
        is_solid(name),
        is_solid(value),
    ensures
        words_of(text + opening + value) == words_of(text).push(field_text(name, value)),
        words_of(opening + value) == seq![field_text(name, value)],
{
    reveal_strlit("=");
    let word = field_text(name, value);
    assert("="@ =~= seq!['=']);
    assert(opening + value =~= seq![' '] + word);
    assert(is_solid(word)) by {
        assert forall|i: int| 0 <= i < word.len() implies !is_white(#[trigger] word[i]) by {
            if i < name.len() {
                assert(word[i] == name[i]);
            } else if i == name.len() {
                assert(word[i] == '=');
            } else {
                assert(word[i] == value[i - name.len() - 1]);
            }
        }
    }
    lemma_word(word);
    assert((opening + value)[0] == ' ');
    lemma_words_add(text, opening + value);
    assert(text + opening + value =~= text + (opening + value));
    assert(words_of(text) + seq![word] =~= words_of(text).push(word));
}

// ---------------------------------------------------------------------------
// What texts are taken apart into.
// ---------------------------------------------------------------------------

proof fn lemma_index_found(text: Seq<char>, c: char, from: int)
    requires
        0 <= from <= text.len(),
    ensures
        from <= index_from(text, c, from) <= text.len(),
        index_from(text, c, from) < text.len() ==> text[index_from(text, c, from)] == c,
        forall|i: int| from <= i < index_from(text, c, from) ==> #[trigger] text[i] != c,
    decreases text.len() - from,
{
    if from < text.len() && text[from] != c {
        lemma_index_found(text, c, from + 1);
    }
}

proof fn lemma_pieces_join(text: Seq<char>, c: char, from: int)
    requires
        0 <= from <= text.len(),
    ensures
        pieces_from(text, c, from).len() > 0,
        joined(pieces_from(text, c, from), seq![c]) == text.skip(from),
        forall|i: int|
            0 <= i < pieces_from(text, c, from).len() ==> lacks(
                #[trigger] pieces_from(text, c, from)[i],
                c,
            ),
    decreases text.len() + 1 - from,
{
    let at = index_from(text, c, from);
    let pieces = pieces_from(text, c, from);
    lemma_index_found(text, c, from);
    if at < text.len() {
        let rest = pieces_from(text, c, at + 1);
        lemma_pieces_join(text, c, at + 1);
        assert(pieces.drop_first() =~= rest);
        lemma_joined_first(pieces, seq![c]);
        assert(text.skip(from) =~= text.subrange(from, at) + seq![c] + text.skip(at + 1));
        assert forall|i: int| 0 <= i < pieces.len() implies lacks(#[trigger] pieces[i], c) by {
            if i > 0 {
                assert(pieces[i] == rest[i - 1]);
            }
        }
    } else {
        assert(text.subrange(from, text.len() as int) =~= text.skip(from));
    }
}

/// The pieces of a text, put together again, are the text; and no piece holds what the text
/// was split on.
pub proof fn pieces_make_the_text(text: Seq<char>, c: char)
    ensures
        joined(split_on(text, c), seq![c]) == text,
        split_on(text, c).len() > 0,
        forall|i: int| 0 <= i < split_on(text, c).len() ==> lacks(#[trigger] split_on(text, c)[i], c),
{
    lemma_pieces_join(text, c, 0);
    assert(text.skip(0) =~= text);
}

proof fn lemma_lines_skip(pre: Seq<char>, text: Seq<char>, from: int)
    requires
        0 <= from <= text.len(),
    ensures
        lines_from(pre + text, pre.len() + from) == lines_from(text, from),
    decreases text.len() - from,
{
    let whole = pre + text;
    lemma_index_found(text, '\n', from);
    let at = index_from(text, '\n', from);
    assert forall|i: int| pre.len() + from <= i < pre.len() + at implies #[trigger] whole[i]
        != '\n' by {
        assert(whole[i] == text[i - pre.len()]);
    }
    if at < text.len() {
        assert(whole[pre.len() + at] == text[at]);
    }
    lemma_index_from(whole, '\n', pre.len() + from, pre.len() + at);
    if from < text.len() {
        assert(whole.subrange(pre.len() + from, pre.len() + at) =~= text.subrange(from, at));
        if at < text.len() {
            lemma_lines_skip(pre, text, at + 1);
        } else {
            assert(whole.subrange(pre.len() + from, whole.len() as int) =~= text.subrange(
                from,
                text.len() as int,
            ));
        }
    }
}

/// A text has its lines up to its line breaks, of which each is a line feed, perhaps behind a
/// carriage return. What stands behind the last line break is a line if it is not empty.
pub proof fn lines_end_at_line_breaks(line: Seq<char>, rest: Seq<char>)
    requires
        lacks(line, '\n'),
    ensures
        lines_of(Seq::empty()) == Seq::<Seq<char>>::empty(),
        line.len() > 0 ==> lines_of(line) == seq![line],
        line.len() == 0 || line.last() != '\r' ==> lines_of(line + seq!['\n'] + rest) == seq![line]
            + lines_of(rest),
        lines_of(line + seq!['\r', '\n'] + rest) == seq![line] + lines_of(rest),
{
    if line.len() > 0 {
        lemma_index_from(line, '\n', 0, line.len() as int);
        assert(line.subrange(0, line.len() as int) =~= line);
    }
    let a = line + seq!['\n'];
    let text = a + rest;
    let n = line.len() as int;
    assert forall|i: int| 0 <= i < n implies #[trigger] text[i] != '\n' by {
        assert(text[i] == line[i]);
    }
    assert(text[n] == '\n');
    lemma_index_from(text, '\n', 0, n);
    assert(text.subrange(0, n) =~= line);
    lemma_lines_skip(a, rest, 0);
    let b = line + seq!['\r', '\n'];
    let other = b + rest;
    assert forall|i: int| 0 <= i < n + 1 implies #[trigger] other[i] != '\n' by {
        if i < n {
            assert(other[i] == line[i]);
        }
    }
    assert(other[n + 1] == '\n');
    lemma_index_from(other, '\n', 0, n + 1);
    assert(other.subrange(0, n + 1) =~= line.push('\r'));
    assert(line.push('\r').drop_last() =~= line);
    lemma_lines_skip(b, rest, 0);
}

/// Whether `text` is nothing but white space.
pub open spec fn is_blank(text: Seq<char>) -> bool {
    forall|i: int| 0 <= i < text.len() ==> is_white(#[trigger] text[i])
}

proof fn lemma_trim_start(text: Seq<char>)
    ensures
        trim_start(text).len() <= text.len(),
        text.skip(text.len() - trim_start(text).len()) == trim_start(text),
        is_blank(text.take(text.len() - trim_start(text).len())),
        trim_start(text).len() > 0 ==> !is_white(trim_start(text)[0]),
    decreases text.len(),
{
    if text.len() > 0 && is_white(text[0]) {
        let rest = text.drop_first();
        let out = trim_start(text);
        lemma_trim_start(rest);
        let n = text.len() - out.len();
        assert(text.skip(n) =~= rest.skip(n - 1));
        assert forall|i: int| 0 <= i < text.take(n).len() implies is_white(
            #[trigger] text.take(n)[i],
        ) by {
            if i > 0 {
                assert(text.take(n)[i] == rest.take(n - 1)[i - 1]);
            }
        }
    } else {
        assert(text.skip(0) =~= text);
    }
}

proof fn lemma_trim_end(text: Seq<char>)
    ensures
        trim_end(text).len() <= text.len(),
        text.take(trim_end(text).len() as int) == trim_end(text),
        is_blank(text.skip(trim_end(text).len() as int)),
        trim_end(text).len() > 0 ==> !is_white(trim_end(text).last()),
    decreases text.len(),
{
    if text.len() > 0 && is_white(text.last()) {
        let rest = text.drop_last();
        lemma_trim_end(rest);
        let n = trim_end(text).len() as int;
        assert(text.take(n) =~= rest.take(n));
        assert forall|i: int| 0 <= i < text.skip(n).len() implies is_white(
            #[trigger] text.skip(n)[i],
        ) by {
            if i < rest.skip(n).len() {
                assert(text.skip(n)[i] == rest.skip(n)[i]);
            }
        }
    } else {
        assert(text.take(text.len() as int) =~= text);
    }
}

/// A trimmed text is what is left where the white space at both ends is taken away, and
/// nothing else.
pub proof fn trimming_takes_white_ends(text: Seq<char>) -> (ends: (Seq<char>, Seq<char>))
    ensures
        text == ends.0 + trimmed(text) + ends.1,
        is_blank(ends.0),
        is_blank(ends.1),
        trimmed(text).len() > 0 ==> !is_white(trimmed(text)[0]) && !is_white(trimmed(text).last()),
{
    let middle = trim_start(text);
    lemma_trim_start(text);
    lemma_trim_end(middle);
    let a = text.take(text.len() - middle.len());
    let b = middle.skip(trimmed(text).len() as int);
    assert(middle =~= trimmed(text) + b);
    assert(text =~= a + middle);
    assert(text =~= a + trimmed(text) + b);
    if trimmed(text).len() > 0 {
        assert(trimmed(text)[0] == middle[0]);
    }
    (a, b)
}

/// White space, and only white space, parts words: a text without any is one word, blanks hold
/// none, and the words on both sides of a blank are those of each side.
pub proof fn white_space_parts_words(a: Seq<char>, white: char, b: Seq<char>)
    requires
        is_white(white),
    ensures
        words_of(a + seq![white] + b) == words_of(a) + words_of(b),
        words_of(Seq::empty()) == Seq::<Seq<char>>::empty(),
        words_of(seq![white]) == Seq::<Seq<char>>::empty(),
        a.len() > 0 && is_solid(a) ==> words_of(a) == seq![a],
{
    let w = seq![white];
    let rest = w + b;
    assert(a + w + b =~= a + rest);
    lemma_words_add(a, rest);
    assert(rest[0] == white);
    lemma_words_behind(w, b, 0, 0);
    assert(words_of(rest) =~= words_from(rest, 1, 1));
    assert(words_from(w, 1, 1) =~= Seq::empty());
    assert(words_of(w) =~= Seq::empty());
    if a.len() > 0 && is_solid(a) {
        lemma_word(a);
    }
}

/// A number is read digit by digit: one more digit behind it is ten times as much and the
/// digit. A `+` or a zero before it changes nothing. Nothing else is a number.
pub proof fn numbers_are_read_digit_by_digit(text: Seq<char>, digit: char, max: nat)
    ensures
        number_in(Seq::empty(), max) is None,
        number_in(seq!['+'], max) is None,
        '0' <= digit <= '9' ==> number_in(seq![digit], max) == (if digit as int - '0' as int
            <= max {
            Some((digit as int - '0' as int) as nat)
        } else {
            None
        }),
        '0' <= digit <= '9' ==> (number_in(text, max) matches Some(n) ==> number_in(
            text.push(digit),
            max,
        ) == (if 10 * n + (digit as int - '0' as int) <= max {
            Some((10 * n + (digit as int - '0' as int)) as nat)
        } else {
            None
        })),
        !('0' <= digit <= '9') && (digit != '+' || text.len() > 0) ==> number_in(
            text.push(digit),
            max,
        ) is None,
        number_in(text, max) matches Some(n) ==> n <= max,
        text.len() > 0 && text[0] != '+' ==> number_in(seq!['+'] + text, max) == number_in(text, max),
{
    let one = seq![digit];
    assert(seq!['+'].drop_first() =~= Seq::empty());
    assert(one.drop_last() =~= Seq::empty());
    assert(digits_value(one.drop_last()) == 0);
    if '0' <= digit <= '9' {
        assert(all_digits(one));
        assert(digits_value(one) == digit as int - '0' as int);
    }
    let plus = text.len() > 0 && text[0] == '+';
    let digits = if plus {
        text.drop_first()
    } else {
        text
    };
    let more = text.push(digit);
    let longer = digits.push(digit);
    if text.len() > 0 {
        assert(more[0] == text[0]);
        if plus {
            assert(more.drop_first() =~= longer);
        }
    }
    assert(longer.drop_last() =~= digits);
    assert(longer.last() == digit);
    assert(longer[digits.len() as int] == digit);
    if '0' <= digit <= '9' && all_digits(digits) {
        assert forall|i: int| 0 <= i < longer.len() implies '0' <= #[trigger] longer[i] <= '9' by {
            if i < digits.len() {
                assert(longer[i] == digits[i]);
            }
        }
    }
    assert((seq!['+'] + text).drop_first() =~= text);
}

/// A diagnostic is one line of at most three hundred characters, without tabs, and begins as
/// the trimmed text begins.
pub proof fn diagnostics_are_one_line(text: Seq<char>)
    ensures
        lacks(compacted(text), '\n'),
        lacks(compacted(text), '\r'),
        lacks(compacted(text), '\t'),
        compacted(text).len() <= trimmed(text).len(),
        compacted(text).len() <= 300,
        compacted(text).len() < 300 ==> compacted(text).len() == trimmed(text).len(),
        forall|i: int|
            0 <= i < compacted(text).len() && !(trimmed(text)[i] == '\n' || trimmed(text)[i] == '\r'
                || trimmed(text)[i] == '\t') ==> #[trigger] compacted(text)[i] == trimmed(text)[i],
        forall|i: int|
            0 <= i < compacted(text).len() && (trimmed(text)[i] == '\n' || trimmed(text)[i] == '\r'
                || trimmed(text)[i] == '\t') ==> #[trigger] compacted(text)[i] == ' ',
{
}

/// Upper case changes the ASCII letters from `a` to `z`, and these into those from `A` to `Z`.
pub proof fn upper_case_changes_letters(text: Seq<char>, i: int)
    requires
        0 <= i < text.len(),
    ensures
        upper(text).len() == text.len(),
        'a' <= text[i] <= 'z' ==> 'A' <= upper(text)[i] <= 'Z' && upper(text)[i] as int - 'A' as int
            == text[i] as int - 'a' as int,
        !('a' <= text[i] <= 'z') ==> upper(text)[i] == text[i],
{
}

/// What follows a prefix is the rest of the text, and there is one only if the text begins
/// with the prefix.
pub proof fn prefixes_are_taken_off(prefix: Seq<char>, rest: Seq<char>, text: Seq<char>)
    ensures
        behind(prefix + rest, prefix) == Some(rest),
        behind(text, prefix) matches Some(after) ==> text == prefix + after,
        behind(text, prefix) is None ==> text != prefix + rest,
{
    let whole = prefix + rest;
    assert(whole.take(prefix.len() as int) =~= prefix);
    assert(whole.skip(prefix.len() as int) =~= rest);
    if begins_with(text, prefix) {
        assert(text =~= prefix + text.skip(prefix.len() as int));
    }
}

/// A search from an index finds the first of the characters that it looks for, or the end.
pub proof fn searches_find_the_first(text: Seq<char>, c: char, from: int)
    requires
        0 <= from <= text.len(),
    ensures
        ({
            let i = index_from(text, c, from);
            &&& from <= i <= text.len()
            &&& i < text.len() ==> text[i] == c
            &&& forall|j: int| from <= j < i ==> #[trigger] text[j] != c
        }),
    decreases text.len() - from,
{
    if from < text.len() && text[from] != c {
        searches_find_the_first(text, c, from + 1);
    }
}

/// Joined texts are joined one behind the other, with what stands between two of them.
pub proof fn texts_are_joined_in_turn(
    a: Seq<Seq<char>>,
    b: Seq<Seq<char>>,
    one: Seq<char>,
    between: Seq<char>,
)
    ensures
        joined(Seq::empty(), between) == Seq::<char>::empty(),
        joined(seq![one], between) == one,
        a.len() > 0 && b.len() > 0 ==> joined(a + b, between) == joined(a, between) + between
            + joined(b, between),
    decreases b.len(),
{
    if a.len() > 0 && b.len() > 0 {
        assert((a + b).drop_last() =~= a + b.drop_last());
        assert((a + b).last() == b.last());
        if b.len() == 1 {
            assert(a + b.drop_last() =~= a);
        } else {
            texts_are_joined_in_turn(a, b.drop_last(), one, between);
            assert(joined(a + b, between) =~= joined(a, between) + between + joined(b, between));
        }
    }
}

/// A list of numbers shows each number in decimal, in their order, with a comma and a space
/// between two of them and in square brackets; and a list of texts shows each text quoted.
#[verifier::spinoff_prover]
#[verifier::rlimit(40)]
pub proof fn lists_show_their_items(numbers: Seq<u64>, texts: Seq<Seq<char>>, n: u64, t: Seq<char>)
    ensures
        list_of_numbers(Seq::empty()) == "["@ + "]"@,
        list_of_numbers(seq![n]) == "["@ + decimal(n as nat) + "]"@,
        numbers.len() > 0 ==> list_of_numbers(numbers.push(n)) == list_of_numbers(
            numbers,
        ).drop_last() + ", "@ + decimal(n as nat) + "]"@,
        list_of_texts(Seq::empty()) == "["@ + "]"@,
        list_of_texts(seq![t]) == "["@ + quoted(t) + "]"@,
        texts.len() > 0 ==> list_of_texts(texts.push(t)) == list_of_texts(texts).drop_last()
            + ", "@ + quoted(t) + "]"@,
{
    reveal_strlit("]");
    assert("]"@.len() == 1);
    let none = Seq::<u64>::empty();
    let bare = Seq::<Seq<char>>::empty();
    assert(all_decimal(none) =~= Seq::empty());
    assert(all_quoted(bare) =~= Seq::empty());
    assert(list_of_numbers(none) =~= "["@ + "]"@);
    assert(list_of_texts(bare) =~= "["@ + "]"@);
    assert(all_decimal(seq![n]) =~= seq![decimal(n as nat)]);
    assert(all_quoted(seq![t]) =~= seq![quoted(t)]);
    if numbers.len() > 0 {
        let shown = all_decimal(numbers);
        assert(all_decimal(numbers.push(n)) =~= shown.push(decimal(n as nat)));
        assert(shown.push(decimal(n as nat)).drop_last() =~= shown);
        assert(list_of_numbers(numbers).drop_last() =~= "["@ + joined(shown, ", "@));
        assert(list_of_numbers(numbers.push(n)) =~= list_of_numbers(numbers).drop_last() + ", "@
            + decimal(n as nat) + "]"@);
    }
    if texts.len() > 0 {
        let shown = all_quoted(texts);
        assert(all_quoted(texts.push(t)) =~= shown.push(quoted(t)));
        assert(shown.push(quoted(t)).drop_last() =~= shown);
        assert(list_of_texts(texts).drop_last() =~= "["@ + joined(shown, ", "@));
        assert(list_of_texts(texts.push(t)) =~= list_of_texts(texts).drop_last() + ", "@ + quoted(
            t,
        ) + "]"@);
    }
}

}
