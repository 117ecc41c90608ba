//! Corpus and golden-vector formats.
//!
//! A corpus is a list of pairs of a pattern and an input; a golden file adds the expected
//! match spans of each pair. Both are little-endian length-prefixed binary, behind a
//! versioned magic header.
use crate::scan::{ranges, Span};
use crate::text::utf8_text;
use vstd::prelude::*;
use vstd::utf8::{
    decode_utf8, encode_utf8, encode_utf8_decode_utf8, encode_utf8_valid_utf8, valid_utf8,
};

verus! {

/// `optiwork-corpus-v1` and a newline.
pub const CORPUS_MAGIC: [u8; 19] = [
    0x6f, 0x70, 0x74, 0x69, 0x77, 0x6f, 0x72, 0x6b, 0x2d, 0x63,
    0x6f, 0x72, 0x70, 0x75, 0x73, 0x2d, 0x76, 0x31, 0x0a,
];

/// `optiwork-golden-v1` and a newline.
pub const GOLDEN_MAGIC: [u8; 19] = [
    0x6f, 0x70, 0x74, 0x69, 0x77, 0x6f, 0x72, 0x6b, 0x2d, 0x67,
    0x6f, 0x6c, 0x64, 0x65, 0x6e, 0x2d, 0x76, 0x31, 0x0a,
];

/// One benchmark pair of a pattern and a haystack.
#[derive(Clone, Debug, PartialEq, Eq)]
pub struct Pair {
    pub pattern: String,
    pub input: Vec<u8>,
}

/// A pair together with its expected non-overlapping leftmost-first spans.
#[derive(Clone, Debug, PartialEq, Eq)]
pub struct GoldenPair {
    pub pattern: String,
    pub input: Vec<u8>,
    pub spans: Vec<Span>,
}

impl View for Pair {
    type V = (Seq<char>, Seq<u8>);

    open spec fn view(&self) -> (Seq<char>, Seq<u8>) {
        (self.pattern@, self.input@)
    }
}

impl View for GoldenPair {
    type V = (Seq<char>, Seq<u8>, Seq<(int, int)>);

    open spec fn view(&self) -> (Seq<char>, Seq<u8>, Seq<(int, int)>) {
        (self.pattern@, self.input@, ranges(self.spans@))
    }
}

/// The pairs of a corpus.
pub open spec fn pair_views(pairs: Seq<Pair>) -> Seq<(Seq<char>, Seq<u8>)> {
    pairs.map_values(|p: Pair| p@)
}

/// The pairs of a golden file.
pub open spec fn golden_views(pairs: Seq<GoldenPair>) -> Seq<
    (Seq<char>, Seq<u8>, Seq<(int, int)>),
> {
    pairs.map_values(|p: GoldenPair| p@)
}

// ---------------------------------------------------------------------------
// The format as it is written.
// ---------------------------------------------------------------------------

/// The low 32 bits of `n`, least significant byte first.
pub open spec fn le32(n: int) -> Seq<u8> {
    seq![
        (n % 256) as u8,
        (n / 256 % 256) as u8,
        (n / 65536 % 256) as u8,
        (n / 16777216 % 256) as u8,
    ]
}

/// A length and that many bytes.
pub open spec fn blob(bytes: Seq<u8>) -> Seq<u8> {
    le32(bytes.len() as int) + bytes
}

/// The image of a pair.
pub open spec fn pair_image(pair: (Seq<char>, Seq<u8>)) -> Seq<u8> {
    blob(encode_utf8(pair.0)) + blob(pair.1)
}

/// The image of pairs.
pub open spec fn pairs_image(pairs: Seq<(Seq<char>, Seq<u8>)>) -> Seq<u8>
    decreases pairs.len(),
{
    if pairs.len() == 0 {
        Seq::empty()
    } else {
        pairs_image(pairs.drop_last()) + pair_image(pairs.last())
    }
}

/// The image of a corpus.
pub open spec fn corpus_image(pairs: Seq<(Seq<char>, Seq<u8>)>) -> Seq<u8> {
    CORPUS_MAGIC@ + le32(pairs.len() as int) + pairs_image(pairs)
}

/// The image of spans.
pub open spec fn spans_image(spans: Seq<(int, int)>) -> Seq<u8>
    decreases spans.len(),
{
    if spans.len() == 0 {
        Seq::empty()
    } else {
        spans_image(spans.drop_last()) + le32(spans.last().0) + le32(spans.last().1)
    }
}

/// The image of a golden pair.
pub open spec fn golden_pair_image(pair: (Seq<char>, Seq<u8>, Seq<(int, int)>)) -> Seq<u8> {
    pair_image((pair.0, pair.1)) + le32(pair.2.len() as int) + spans_image(pair.2)
}

/// The image of golden pairs.
pub open spec fn goldens_image(pairs: Seq<(Seq<char>, Seq<u8>, Seq<(int, int)>)>) -> Seq<u8>
    decreases pairs.len(),
{
    if pairs.len() == 0 {
        Seq::empty()
    } else {
        goldens_image(pairs.drop_last()) + golden_pair_image(pairs.last())
    }
}

/// The image of a golden file.
pub open spec fn golden_image(pairs: Seq<(Seq<char>, Seq<u8>, Seq<(int, int)>)>) -> Seq<u8> {
    GOLDEN_MAGIC@ + le32(pairs.len() as int) + goldens_image(pairs)
}

// ---------------------------------------------------------------------------
// The format as it is read.
// ---------------------------------------------------------------------------

/// The number whose bytes stand at `pos`, and where they end.
pub open spec fn u32_at(bytes: Seq<u8>, pos: int) -> Result<(int, int), Seq<char>> {
    if pos + 4 > bytes.len() {
        Err("unexpected end of file while reading u32"@)
    } else {
        Ok(
            (
                bytes[pos] + bytes[pos + 1] * 256 + bytes[pos + 2] * 65536 + bytes[pos + 3]
                    * 16777216,
                pos + 4,
            ),
        )
    }
}

/// The blob at `pos`, and where it ends.
pub open spec fn blob_at(bytes: Seq<u8>, pos: int) -> Result<(Seq<u8>, int), Seq<char>> {
    match u32_at(bytes, pos) {
        Err(e) => Err(e),
        Ok((len, from)) => if from + len > bytes.len() {
            Err("unexpected end of file while reading blob"@)
        } else {
            Ok((bytes.subrange(from, from + len), from + len))
        },
    }
}

/// The pair at `pos`, and where it ends.
pub open spec fn pair_at(bytes: Seq<u8>, pos: int) -> Result<
    ((Seq<char>, Seq<u8>), int),
    Seq<char>,
> {
    match blob_at(bytes, pos) {
        Err(e) => Err(e),
        Ok((pattern, mid)) => if !valid_utf8(pattern) {
            Err("pattern is not UTF-8"@)
        } else {
            match blob_at(bytes, mid) {
                Err(e) => Err(e),
                Ok((input, end)) => Ok(((decode_utf8(pattern), input), end)),
            }
        },
    }
}

/// The `n` pairs from `pos` on, and where they end.
pub open spec fn pairs_at(bytes: Seq<u8>, pos: int, n: int) -> Result<
    (Seq<(Seq<char>, Seq<u8>)>, int),
    Seq<char>,
>
    decreases n,
{
    if n <= 0 {
        Ok((Seq::empty(), pos))
    } else {
        match pairs_at(bytes, pos, n - 1) {
            Err(e) => Err(e),
            Ok((pairs, mid)) => match pair_at(bytes, mid) {
                Err(e) => Err(e),
                Ok((pair, end)) => Ok((pairs.push(pair), end)),
            },
        }
    }
}

/// The corpus that `bytes` is the image of, or why it is the image of none. Bytes behind
/// the last pair are not looked at.
pub open spec fn corpus_in(bytes: Seq<u8>) -> Result<Seq<(Seq<char>, Seq<u8>)>, Seq<char>> {
    if !begins_with(bytes, CORPUS_MAGIC@) {
        Err("not an optiwork-corpus-v1 file"@)
    } else {
        match u32_at(bytes, CORPUS_MAGIC@.len() as int) {
            Err(e) => Err(e),
            Ok((count, pos)) => match pairs_at(bytes, pos, count) {
                Err(e) => Err(e),
                Ok((pairs, _)) => Ok(pairs),
            },
        }
    }
}

/// Whether `magic` stands at the start of `bytes`.
pub open spec fn begins_with(bytes: Seq<u8>, magic: Seq<u8>) -> bool {
    bytes.len() >= magic.len() && bytes.subrange(0, magic.len() as int) == magic
}

/// The `n` spans from `pos` on, and where they end.
pub open spec fn spans_at(bytes: Seq<u8>, pos: int, n: int) -> Result<
    (Seq<(int, int)>, int),
    Seq<char>,
>
    decreases n,
{
    if n <= 0 {
        Ok((Seq::empty(), pos))
    } else {
        match spans_at(bytes, pos, n - 1) {
            Err(e) => Err(e),
            Ok((spans, p0)) => match u32_at(bytes, p0) {
                Err(e) => Err(e),
                Ok((start, p1)) => match u32_at(bytes, p1) {
                    Err(e) => Err(e),
                    Ok((end, p2)) => Ok((spans.push((start, end)), p2)),
                },
            },
        }
    }
}

/// The golden pair at `pos`, and where it ends.
pub open spec fn golden_at(bytes: Seq<u8>, pos: int) -> Result<
    ((Seq<char>, Seq<u8>, Seq<(int, int)>), int),
    Seq<char>,
> {
    match pair_at(bytes, pos) {
        Err(e) => Err(e),
        Ok(((pattern, input), mid)) => match u32_at(bytes, mid) {
            Err(e) => Err(e),
            Ok((n, from)) => match spans_at(bytes, from, n) {
                Err(e) => Err(e),
                Ok((spans, end)) => Ok(((pattern, input, spans), end)),
            },
        },
    }
}

/// The `n` golden pairs from `pos` on, and where they end.
pub open spec fn goldens_at(bytes: Seq<u8>, pos: int, n: int) -> Result<
    (Seq<(Seq<char>, Seq<u8>, Seq<(int, int)>)>, int),
    Seq<char>,
>
    decreases n,
{
    if n <= 0 {
        Ok((Seq::empty(), pos))
    } else {
        match goldens_at(bytes, pos, n - 1) {
            Err(e) => Err(e),
            Ok((pairs, mid)) => match golden_at(bytes, mid) {
                Err(e) => Err(e),
                Ok((pair, end)) => Ok((pairs.push(pair), end)),
            },
        }
    }
}

/// The golden pairs that `bytes` is the image of, or why it is the image of none.
pub open spec fn golden_in(bytes: Seq<u8>) -> Result<
    Seq<(Seq<char>, Seq<u8>, Seq<(int, int)>)>,
    Seq<char>,
> {
    if !begins_with(bytes, GOLDEN_MAGIC@) {
        Err("not an optiwork-golden-v1 file"@)
    } else {
        match u32_at(bytes, GOLDEN_MAGIC@.len() as int) {
            Err(e) => Err(e),
            Ok((count, pos)) => match goldens_at(bytes, pos, count) {
                Err(e) => Err(e),
                Ok((pairs, _)) => Ok(pairs),
            },
        }
    }
}

// ---------------------------------------------------------------------------
// Reading.
// ---------------------------------------------------------------------------

fn read_u32(bytes: &[u8], pos: &mut usize) -> (value: Result<u32, String>)
    requires
        *old(pos) <= bytes.len(),
    ensures
        *final(pos) <= bytes.len(),
        match value {
            Ok(v) => u32_at(bytes@, *old(pos) as int) == Ok::<(int, int), Seq<char>>(
                (v as int, *final(pos) as int),
            ),
            Err(e) => u32_at(bytes@, *old(pos) as int) == Err::<(int, int), Seq<char>>(e@),
        },
{
    if bytes.len() - *pos < 4 {
        return Err("unexpected end of file while reading u32".to_owned());
    }
    let p: usize = *pos;
    let value: u32 = bytes[p] as u32 + bytes[p + 1] as u32 * 256 + bytes[p + 2] as u32 * 65536
        + bytes[p + 3] as u32 * 16777216;
    *pos = p + 4;
    Ok(value)
}

fn read_bytes(bytes: &[u8], pos: &mut usize) -> (value: Result<Vec<u8>, String>)
    requires
        *old(pos) <= bytes.len(),
    ensures
        *final(pos) <= bytes.len(),
        match value {
            Ok(v) => blob_at(bytes@, *old(pos) as int) == Ok::<(Seq<u8>, int), Seq<char>>(
                (v@, *final(pos) as int),
            ),
            Err(e) => blob_at(bytes@, *old(pos) as int) == Err::<(Seq<u8>, int), Seq<char>>(e@),
        },
{
    let len: u32 = match read_u32(bytes, pos) {
        Ok(len) => len,
        Err(e) => {
            return Err(e);
        },
    };
    let from: usize = *pos;
    if bytes.len() - from < len as usize {
        return Err("unexpected end of file while reading blob".to_owned());
    }
    let end: usize = from + len as usize;
    let mut value: Vec<u8> = Vec::new();
    value.extend_from_slice(&bytes[from..end]);
    assert(value@ =~= bytes@.subrange(from as int, end as int));
    *pos = end;
    Ok(value)
}

/// Read the pattern and the input of a pair.
fn read_pair(bytes: &[u8], pos: &mut usize) -> (value: Result<Pair, String>)
    requires
        *old(pos) <= bytes.len(),
    ensures
        *final(pos) <= bytes.len(),
        match value {
            Ok(v) => pair_at(bytes@, *old(pos) as int) == Ok::<
                ((Seq<char>, Seq<u8>), int),
                Seq<char>,
            >((v@, *final(pos) as int)),
            Err(e) => pair_at(bytes@, *old(pos) as int) == Err::<
                ((Seq<char>, Seq<u8>), int),
                Seq<char>,
            >(e@),
        },
{
    let pattern: Vec<u8> = match read_bytes(bytes, pos) {
        Ok(pattern) => pattern,
        Err(e) => {
            return Err(e);
        },
    };
    let pattern: String = match utf8_text(pattern) {
        Some(pattern) => pattern,
        None => {
            return Err("pattern is not UTF-8".to_owned());
        },
    };
    match read_bytes(bytes, pos) {
        Ok(input) => Ok(Pair { pattern, input }),
        Err(e) => Err(e),
    }
}

/// Whether `bytes` begins with `magic`.
fn has_magic(bytes: &[u8], magic: &[u8]) -> (yes: bool)
    ensures
        yes == begins_with(bytes@, magic@),
{
    if bytes.len() < magic.len() {
        return false;
    }
    let mut i: usize = 0;
    while i < magic.len()
        invariant
            i <= magic.len() <= bytes.len(),
            forall|j: int| 0 <= j < i ==> bytes@[j] == magic@[j],
        decreases magic.len() - i,
    {
        if bytes[i] != magic[i] {
            assert(bytes@.subrange(0, magic@.len() as int)[i as int] != magic@[i as int]);
            return false;
        }
        i += 1;
    }
    assert(bytes@.subrange(0, magic@.len() as int) =~= magic@);
    true
}

/// Deserialize a corpus.
pub fn deserialize_corpus(bytes: &[u8]) -> (pairs: Result<Vec<Pair>, String>)
    ensures
        match pairs {
            Ok(p) => corpus_in(bytes@) == Ok::<Seq<(Seq<char>, Seq<u8>)>, Seq<char>>(
                pair_views(p@),
            ),
            Err(e) => corpus_in(bytes@) == Err::<Seq<(Seq<char>, Seq<u8>)>, Seq<char>>(e@),
        },
{
    if !has_magic(bytes, CORPUS_MAGIC.as_slice()) {
        return Err("not an optiwork-corpus-v1 file".to_owned());
    }
    let mut pos: usize = CORPUS_MAGIC.len();
    let count: u32 = match read_u32(bytes, &mut pos) {
        Ok(count) => count,
        Err(e) => {
            return Err(e);
        },
    };
    let ghost start = pos as int;
    let mut pairs: Vec<Pair> = Vec::new();
    let mut i: u32 = 0;
    proof {
        assert(pair_views(pairs@) =~= Seq::empty());
    }
    while i < count
        invariant
            i <= count,
            pos <= bytes.len(),
            pairs_at(bytes@, start, i as int) == Ok::<
                (Seq<(Seq<char>, Seq<u8>)>, int),
                Seq<char>,
            >((pair_views(pairs@), pos as int)),
            corpus_in(bytes@) == (match pairs_at(bytes@, start, count as int) {
                Err(e) => Err(e),
                Ok((pairs, _)) => Ok(pairs),
            }),
        decreases count - i,
    {
        let ghost was = pair_views(pairs@);
        let pair = match read_pair(bytes, &mut pos) {
            Ok(pair) => pair,
            Err(e) => {
                proof {
                    lemma_pairs_fail(bytes@, start, i + 1, count as int, e@);
                }
                return Err(e);
            },
        };
        pairs.push(pair);
        assert(pair_views(pairs@) =~= was.push(pair@));
        i += 1;
    }
    Ok(pairs)
}

/// Where one pair cannot be read, no more of them can.
proof fn lemma_pairs_fail(bytes: Seq<u8>, pos: int, i: int, n: int, e: Seq<char>)
    requires
        i <= n,
        pairs_at(bytes, pos, i) == Err::<(Seq<(Seq<char>, Seq<u8>)>, int), Seq<char>>(e),
    ensures
        pairs_at(bytes, pos, n) == Err::<(Seq<(Seq<char>, Seq<u8>)>, int), Seq<char>>(e),
    decreases n - i,
{
    if i < n {
        lemma_pairs_fail(bytes, pos, i, n - 1, e);
    }
}

proof fn lemma_goldens_fail(bytes: Seq<u8>, pos: int, i: int, n: int, e: Seq<char>)
    requires
        i <= n,
        goldens_at(bytes, pos, i) == Err::<
            (Seq<(Seq<char>, Seq<u8>, Seq<(int, int)>)>, int),
            Seq<char>,
        >(e),
    ensures
        goldens_at(bytes, pos, n) == Err::<
            (Seq<(Seq<char>, Seq<u8>, Seq<(int, int)>)>, int),
            Seq<char>,
        >(e),
    decreases n - i,
{
    if i < n {
        lemma_goldens_fail(bytes, pos, i, n - 1, e);
    }
}

proof fn lemma_spans_fail(bytes: Seq<u8>, pos: int, i: int, n: int, e: Seq<char>)
    requires
        i <= n,
        spans_at(bytes, pos, i) == Err::<(Seq<(int, int)>, int), Seq<char>>(e),
    ensures
        spans_at(bytes, pos, n) == Err::<(Seq<(int, int)>, int), Seq<char>>(e),
    decreases n - i,
{
    if i < n {
        lemma_spans_fail(bytes, pos, i, n - 1, e);
    }
}

/// Read `n` spans.
fn read_spans(bytes: &[u8], pos: &mut usize, n: u32) -> (value: Result<Vec<Span>, String>)
    requires
        *old(pos) <= bytes.len(),
    ensures
        *final(pos) <= bytes.len(),
        match value {
            Ok(v) => spans_at(bytes@, *old(pos) as int, n as int) == Ok::<
                (Seq<(int, int)>, int),
                Seq<char>,
            >((ranges(v@), *final(pos) as int)),
            Err(e) => spans_at(bytes@, *old(pos) as int, n as int) == Err::<
                (Seq<(int, int)>, int),
                Seq<char>,
            >(e@),
        },
{
    let ghost start = *pos as int;
    let mut spans: Vec<Span> = Vec::new();
    let mut i: u32 = 0;
    proof {
        assert(ranges(spans@) =~= Seq::empty());
    }
    while i < n
        invariant
            i <= n,
            start == *old(pos),
            *pos <= bytes.len(),
            spans_at(bytes@, start, i as int) == Ok::<(Seq<(int, int)>, int), Seq<char>>(
                (ranges(spans@), *pos as int),
            ),
        decreases n - i,
    {
        let ghost was = ranges(spans@);
        let start_at: u32 = match read_u32(bytes, pos) {
            Ok(v) => v,
            Err(e) => {
                proof {
                    lemma_spans_fail(bytes@, start, i + 1, n as int, e@);
                }
                return Err(e);
            },
        };
        let end_at: u32 = match read_u32(bytes, pos) {
            Ok(v) => v,
            Err(e) => {
                proof {
                    lemma_spans_fail(bytes@, start, i + 1, n as int, e@);
                }
                return Err(e);
            },
        };
        spans.push(Span::new(start_at as usize, end_at as usize));
        assert(ranges(spans@) =~= was.push((start_at as int, end_at as int)));
        i += 1;
    }
    Ok(spans)
}

/// Read a golden pair.
fn read_golden(bytes: &[u8], pos: &mut usize) -> (value: Result<GoldenPair, String>)
    requires
        *old(pos) <= bytes.len(),
    ensures
        *final(pos) <= bytes.len(),
        match value {
            Ok(v) => golden_at(bytes@, *old(pos) as int) == Ok::<
                ((Seq<char>, Seq<u8>, Seq<(int, int)>), int),
                Seq<char>,
            >((v@, *final(pos) as int)),
            Err(e) => golden_at(bytes@, *old(pos) as int) == Err::<
                ((Seq<char>, Seq<u8>, Seq<(int, int)>), int),
                Seq<char>,
            >(e@),
        },
{
    let pair: Pair = match read_pair(bytes, pos) {
        Ok(pair) => pair,
        Err(e) => {
            return Err(e);
        },
    };
    let span_count: u32 = match read_u32(bytes, pos) {
        Ok(n) => n,
        Err(e) => {
            return Err(e);
        },
    };
    match read_spans(bytes, pos, span_count) {
        Ok(spans) => Ok(GoldenPair { pattern: pair.pattern, input: pair.input, spans }),
        Err(e) => Err(e),
    }
}

/// Deserialize golden vectors.
pub fn deserialize_golden(bytes: &[u8]) -> (pairs: Result<Vec<GoldenPair>, String>)
    ensures
        match pairs {
            Ok(p) => golden_in(bytes@) == Ok::<
                Seq<(Seq<char>, Seq<u8>, Seq<(int, int)>)>,
                Seq<char>,
            >(golden_views(p@)),
            Err(e) => golden_in(bytes@) == Err::<
                Seq<(Seq<char>, Seq<u8>, Seq<(int, int)>)>,
                Seq<char>,
            >(e@),
        },
{
    if !has_magic(bytes, GOLDEN_MAGIC.as_slice()) {
        return Err("not an optiwork-golden-v1 file".to_owned());
    }
    let mut pos: usize = GOLDEN_MAGIC.len();
    let count: u32 = match read_u32(bytes, &mut pos) {
        Ok(count) => count,
        Err(e) => {
            return Err(e);
        },
    };
    let ghost start = pos as int;
    let mut pairs: Vec<GoldenPair> = Vec::new();
    let mut i: u32 = 0;
    proof {
        assert(golden_views(pairs@) =~= Seq::empty());
    }
    while i < count
        invariant
            i <= count,
            pos <= bytes.len(),
            goldens_at(bytes@, start, i as int) == Ok::<
                (Seq<(Seq<char>, Seq<u8>, Seq<(int, int)>)>, int),
                Seq<char>,
            >((golden_views(pairs@), pos as int)),
            golden_in(bytes@) == (match goldens_at(bytes@, start, count as int) {
                Err(e) => Err(e),
                Ok((pairs, _)) => Ok(pairs),
            }),
        decreases count - i,
    {
        let ghost was = golden_views(pairs@);
        let pair = match read_golden(bytes, &mut pos) {
            Ok(pair) => pair,
            Err(e) => {
                proof {
                    lemma_goldens_fail(bytes@, start, i + 1, count as int, e@);
                }
                return Err(e);
            },
        };
        pairs.push(pair);
        assert(golden_views(pairs@) =~= was.push(pair@));
        i += 1;
    }
    Ok(pairs)
}

// ---------------------------------------------------------------------------
// Writing.
// ---------------------------------------------------------------------------

/// Append the low 32 bits of `value`.
fn write_u32(out: &mut Vec<u8>, value: usize)
    ensures
        final(out)@ == old(out)@ + le32(value as int),
{
    out.push((value % 256) as u8);
    out.push((value / 256 % 256) as u8);
    out.push((value / 65536 % 256) as u8);
    out.push((value / 16777216 % 256) as u8);
    assert(out@ =~= old(out)@ + le32(value as int));
}

/// Append a length and the bytes.
fn write_blob(out: &mut Vec<u8>, bytes: &[u8])
    ensures
        final(out)@ == old(out)@ + blob(bytes@),
{
    write_u32(out, bytes.len());
    out.extend_from_slice(bytes);
    assert(out@ =~= old(out)@ + blob(bytes@));
}

/// Serialize a corpus.
pub fn serialize_corpus(pairs: &[Pair]) -> (bytes: Vec<u8>)
    ensures
        bytes@ == corpus_image(pair_views(pairs@)),
{
    let mut out: Vec<u8> = Vec::new();
    out.extend_from_slice(CORPUS_MAGIC.as_slice());
    write_u32(&mut out, pairs.len());
    let ghost head = out@;
    let ghost views = pair_views(pairs@);
    let mut i: usize = 0;
    proof {
        assert(views.take(0) =~= Seq::empty());
        assert(out@ =~= head + pairs_image(views.take(0)));
    }
    while i < pairs.len()
        invariant
            i <= pairs.len(),
            views == pair_views(pairs@),
            out@ == head + pairs_image(views.take(i as int)),
        decreases pairs.len() - i,
    {
        let ghost was = out@;
        write_blob(&mut out, pairs[i].pattern.as_str().as_bytes());
        write_blob(&mut out, pairs[i].input.as_slice());
        proof {
            assert(views.take(i + 1).drop_last() =~= views.take(i as int));
            assert(views.take(i + 1).last() == pairs@[i as int]@);
            assert(out@ =~= head + pairs_image(views.take(i + 1)));
        }
        i += 1;
    }
    proof {
        assert(views.take(views.len() as int) =~= views);
        assert(out@ =~= corpus_image(views));
    }
    out
}

/// Serialize golden vectors.
pub fn serialize_golden(pairs: &[GoldenPair]) -> (bytes: Vec<u8>)
    ensures
        bytes@ == golden_image(golden_views(pairs@)),
{
    let mut out: Vec<u8> = Vec::new();
    out.extend_from_slice(GOLDEN_MAGIC.as_slice());
    write_u32(&mut out, pairs.len());
    let ghost head = out@;
    let ghost views = golden_views(pairs@);
    let mut i: usize = 0;
    proof {
        assert(views.take(0) =~= Seq::empty());
        assert(out@ =~= head + goldens_image(views.take(0)));
    }
    while i < pairs.len()
        invariant
            i <= pairs.len(),
            views == golden_views(pairs@),
            out@ == head + goldens_image(views.take(i as int)),
        decreases pairs.len() - i,
    {
        let ghost was = out@;
        write_blob(&mut out, pairs[i].pattern.as_str().as_bytes());
        write_blob(&mut out, pairs[i].input.as_slice());
        write_u32(&mut out, pairs[i].spans.len());
        write_spans(&mut out, &pairs[i].spans);
        proof {
            assert(views.take(i + 1).drop_last() =~= views.take(i as int));
            assert(views.take(i + 1).last() == pairs@[i as int]@);
            assert(out@ =~= head + goldens_image(views.take(i + 1)));
        }
        i += 1;
    }
    proof {
        assert(views.take(views.len() as int) =~= views);
        assert(out@ =~= golden_image(views));
    }
    out
}

/// Append spans.
fn write_spans(out: &mut Vec<u8>, spans: &Vec<Span>)
    ensures
        final(out)@ == old(out)@ + spans_image(ranges(spans@)),
{
    let ghost head = out@;
    let ghost views = ranges(spans@);
    let mut i: usize = 0;
    proof {
        assert(views.take(0) =~= Seq::empty());
        assert(out@ =~= head + spans_image(views.take(0)));
    }
    while i < spans.len()
        invariant
            i <= spans.len(),
            views == ranges(spans@),
            out@ == head + spans_image(views.take(i as int)),
        decreases spans.len() - i,
    {
        write_u32(out, spans[i].start);
        write_u32(out, spans[i].end);
        proof {
            assert(views.take(i + 1).drop_last() =~= views.take(i as int));
            assert(views.take(i + 1).last() == spans@[i as int]@);
            assert(out@ =~= head + spans_image(views.take(i + 1)));
        }
        i += 1;
    }
    proof {
        assert(views.take(views.len() as int) =~= views);
    }
}

/// How many bytes the inputs of `pairs` have.
pub open spec fn total_bytes(pairs: Seq<(Seq<char>, Seq<u8>)>) -> nat
    decreases pairs.len(),
{
    if pairs.len() == 0 {
        0
    } else {
        total_bytes(pairs.drop_last()) + pairs.last().1.len()
    }
}

/// Total haystack bytes across a corpus.
pub fn corpus_bytes(pairs: &[Pair]) -> (total: u64)
    requires
        total_bytes(pair_views(pairs@)) <= u64::MAX,
    ensures
        total == total_bytes(pair_views(pairs@)),
{
    let ghost views = pair_views(pairs@);
    let mut total: u64 = 0;
    let mut i: usize = 0;
    proof {
        assert(views.take(0) =~= Seq::empty());
    }
    while i < pairs.len()
        invariant
            i <= pairs.len(),
            views == pair_views(pairs@),
            total == total_bytes(views.take(i as int)),
            total_bytes(views) <= u64::MAX,
        decreases pairs.len() - i,
    {
        proof {
            assert(views.take(i + 1).drop_last() =~= views.take(i as int));
            assert(views.take(i + 1).last() == pairs@[i as int]@);
            lemma_total_grows(views, i + 1);
        }
        total += pairs[i].input.len() as u64;
        i += 1;
    }
    proof {
        assert(views.take(views.len() as int) =~= views);
    }
    total
}

proof fn lemma_total_grows(pairs: Seq<(Seq<char>, Seq<u8>)>, n: int)
    requires
        0 <= n <= pairs.len(),
    ensures
        total_bytes(pairs.take(n)) <= total_bytes(pairs),
    decreases pairs.len() - n,
{
    if n < pairs.len() {
        lemma_total_grows(pairs, n + 1);
        assert(pairs.take(n + 1).drop_last() =~= pairs.take(n));
    } else {
        assert(pairs.take(n) =~= pairs);
    }
}

// ---------------------------------------------------------------------------
// What is written is read back.
// ---------------------------------------------------------------------------

/// Whether the lengths of a pair can be written.
pub open spec fn pair_fits(pair: (Seq<char>, Seq<u8>)) -> bool {
    encode_utf8(pair.0).len() <= u32::MAX && pair.1.len() <= u32::MAX
}

/// Whether all lengths of a corpus can be written.
pub open spec fn corpus_fits(pairs: Seq<(Seq<char>, Seq<u8>)>) -> bool {
    pairs.len() <= u32::MAX && forall|i: int|
        0 <= i < pairs.len() ==> pair_fits(#[trigger] pairs[i])
}

/// Whether a span can be written.
pub open spec fn span_fits(span: (int, int)) -> bool {
    0 <= span.0 <= u32::MAX && 0 <= span.1 <= u32::MAX
}

/// Whether the lengths and spans of a golden pair can be written.
pub open spec fn golden_fits(pair: (Seq<char>, Seq<u8>, Seq<(int, int)>)) -> bool {
    &&& pair_fits((pair.0, pair.1))
    &&& pair.2.len() <= u32::MAX
    &&& forall|i: int| 0 <= i < pair.2.len() ==> span_fits(#[trigger] pair.2[i])
}

/// Whether all lengths and spans of a golden file can be written.
pub open spec fn goldens_fit(pairs: Seq<(Seq<char>, Seq<u8>, Seq<(int, int)>)>) -> bool {
    pairs.len() <= u32::MAX && forall|i: int|
        0 <= i < pairs.len() ==> golden_fits(#[trigger] pairs[i])
}

proof fn lemma_u32_read(pre: Seq<u8>, n: int, tail: Seq<u8>)
    requires
        0 <= n <= u32::MAX,
    ensures
        u32_at(pre + le32(n) + tail, pre.len() as int) == Ok::<(int, int), Seq<char>>(
            (n, pre.len() as int + 4),
        ),
{
    let bytes = pre + le32(n) + tail;
    let p = pre.len() as int;
    assert(bytes[p] == le32(n)[0]);
    assert(bytes[p + 1] == le32(n)[1]);
    assert(bytes[p + 2] == le32(n)[2]);
    assert(bytes[p + 3] == le32(n)[3]);
    assert(n == n % 256 + n / 256 % 256 * 256 + n / 65536 % 256 * 65536 + n / 16777216 % 256
        * 16777216) by (nonlinear_arith)
        requires
            0 <= n <= 0xffff_ffff,
    ;
}

proof fn lemma_blob_read(pre: Seq<u8>, b: Seq<u8>, tail: Seq<u8>)
    requires
        b.len() <= u32::MAX,
    ensures
        blob_at(pre + blob(b) + tail, pre.len() as int) == Ok::<(Seq<u8>, int), Seq<char>>(
            (b, (pre + blob(b)).len() as int),
        ),
{
    let bytes = pre + blob(b) + tail;
    assert(bytes =~= pre + le32(b.len() as int) + (b + tail));
    lemma_u32_read(pre, b.len() as int, b + tail);
    let from = pre.len() as int + 4;
    assert(bytes.subrange(from, from + b.len()) =~= b);
}

proof fn lemma_pair_read(pre: Seq<u8>, pair: (Seq<char>, Seq<u8>), tail: Seq<u8>)
    requires
        pair_fits(pair),
    ensures
        pair_at(pre + pair_image(pair) + tail, pre.len() as int) == Ok::<
            ((Seq<char>, Seq<u8>), int),
            Seq<char>,
        >((pair, (pre + pair_image(pair)).len() as int)),
{
    let a = blob(encode_utf8(pair.0));
    let b = blob(pair.1);
    let bytes = pre + (a + b) + tail;
    assert(bytes =~= pre + a + (b + tail));
    assert(bytes =~= (pre + a) + b + tail);
    lemma_blob_read(pre, encode_utf8(pair.0), b + tail);
    lemma_blob_read(pre + a, pair.1, tail);
    encode_utf8_valid_utf8(pair.0);
    encode_utf8_decode_utf8(pair.0);
    assert(((pre + a) + b).len() == (pre + (a + b)).len());
}

#[verifier::spinoff_prover]
#[verifier::rlimit(40)]
proof fn lemma_pairs_read(pre: Seq<u8>, pairs: Seq<(Seq<char>, Seq<u8>)>, tail: Seq<u8>)
    requires
        corpus_fits(pairs),
    ensures
        pairs_at(pre + pairs_image(pairs) + tail, pre.len() as int, pairs.len() as int) == Ok::<
            (Seq<(Seq<char>, Seq<u8>)>, int),
            Seq<char>,
        >((pairs, (pre + pairs_image(pairs)).len() as int)),
    decreases pairs.len(),
{
    let bytes = pre + pairs_image(pairs) + tail;
    if pairs.len() > 0 {
        let first = pairs.drop_last();
        let last = pairs.last();
        let image = pair_image(last);
        assert forall|i: int| 0 <= i < first.len() implies pair_fits(#[trigger] first[i]) by {
            assert(first[i] == pairs[i]);
        }
        assert(pair_fits(pairs[pairs.len() - 1]));
        assert(bytes =~= pre + pairs_image(first) + (image + tail));
        lemma_pairs_read(pre, first, image + tail);
        let mid = pre + pairs_image(first);
        assert(bytes =~= mid + image + tail);
        lemma_pair_read(mid, last, tail);
        assert(first.push(last) =~= pairs);
        assert((mid + image).len() == (pre + pairs_image(pairs)).len());
    } else {
        assert(pairs =~= Seq::empty());
    }
}

/// A corpus that has been written is read back, whatever stands behind it.
#[verifier::spinoff_prover]
#[verifier::rlimit(40)]
pub proof fn corpus_is_read_back(pairs: Seq<(Seq<char>, Seq<u8>)>, tail: Seq<u8>)
    requires
        corpus_fits(pairs),
    ensures
        corpus_in(corpus_image(pairs) + tail) == Ok::<Seq<(Seq<char>, Seq<u8>)>, Seq<char>>(pairs),
{
    let magic = CORPUS_MAGIC@;
    let count = le32(pairs.len() as int);
    let bytes = corpus_image(pairs) + tail;
    assert(bytes.subrange(0, magic.len() as int) =~= magic);
    assert(bytes =~= magic + count + (pairs_image(pairs) + tail));
    lemma_u32_read(magic, pairs.len() as int, pairs_image(pairs) + tail);
    assert(bytes =~= (magic + count) + pairs_image(pairs) + tail);
    lemma_pairs_read(magic + count, pairs, tail);
}

#[verifier::spinoff_prover]
#[verifier::rlimit(40)]
proof fn lemma_spans_read(pre: Seq<u8>, spans: Seq<(int, int)>, tail: Seq<u8>)
    requires
        forall|i: int| 0 <= i < spans.len() ==> span_fits(#[trigger] spans[i]),
    ensures
        spans_at(pre + spans_image(spans) + tail, pre.len() as int, spans.len() as int) == Ok::<
            (Seq<(int, int)>, int),
            Seq<char>,
        >((spans, (pre + spans_image(spans)).len() as int)),
    decreases spans.len(),
{
    let bytes = pre + spans_image(spans) + tail;
    if spans.len() > 0 {
        let first = spans.drop_last();
        let last = spans.last();
        let a = le32(last.0);
        let b = le32(last.1);
        assert forall|i: int| 0 <= i < first.len() implies span_fits(#[trigger] first[i]) by {
            assert(first[i] == spans[i]);
        }
        assert(span_fits(spans[spans.len() - 1]));
        assert(bytes =~= pre + spans_image(first) + (a + b + tail));
        lemma_spans_read(pre, first, a + b + tail);
        let mid = pre + spans_image(first);
        assert(bytes =~= mid + a + (b + tail));
        lemma_u32_read(mid, last.0, b + tail);
        assert(bytes =~= (mid + a) + b + tail);
        lemma_u32_read(mid + a, last.1, tail);
        assert(first.push(last) =~= spans);
    } else {
        assert(spans =~= Seq::empty());
    }
}

#[verifier::spinoff_prover]
#[verifier::rlimit(40)]
proof fn lemma_golden_read(
    pre: Seq<u8>,
    pair: (Seq<char>, Seq<u8>, Seq<(int, int)>),
    tail: Seq<u8>,
)
    requires
        golden_fits(pair),
    ensures
        golden_at(pre + golden_pair_image(pair) + tail, pre.len() as int) == Ok::<
            ((Seq<char>, Seq<u8>, Seq<(int, int)>), int),
            Seq<char>,
        >((pair, (pre + golden_pair_image(pair)).len() as int)),
{
    let a = pair_image((pair.0, pair.1));
    let n = le32(pair.2.len() as int);
    let s = spans_image(pair.2);
    let bytes = pre + (a + n + s) + tail;
    assert(bytes =~= pre + a + (n + s + tail));
    lemma_pair_read(pre, (pair.0, pair.1), n + s + tail);
    assert(bytes =~= (pre + a) + n + (s + tail));
    lemma_u32_read(pre + a, pair.2.len() as int, s + tail);
    assert(bytes =~= (pre + a + n) + s + tail);
    lemma_spans_read(pre + a + n, pair.2, tail);
    assert((pre + a + n + s).len() == (pre + (a + n + s)).len());
}

#[verifier::spinoff_prover]
#[verifier::rlimit(40)]
proof fn lemma_goldens_read(
    pre: Seq<u8>,
    pairs: Seq<(Seq<char>, Seq<u8>, Seq<(int, int)>)>,
    tail: Seq<u8>,
)
    requires
        goldens_fit(pairs),
    ensures
        goldens_at(pre + goldens_image(pairs) + tail, pre.len() as int, pairs.len() as int) == Ok::<
            (Seq<(Seq<char>, Seq<u8>, Seq<(int, int)>)>, int),
            Seq<char>,
        >((pairs, (pre + goldens_image(pairs)).len() as int)),
    decreases pairs.len(),
{
    let bytes = pre + goldens_image(pairs) + tail;
    if pairs.len() > 0 {
        let first = pairs.drop_last();
        let last = pairs.last();
        let image = golden_pair_image(last);
        assert forall|i: int| 0 <= i < first.len() implies golden_fits(#[trigger] first[i]) by {
            assert(first[i] == pairs[i]);
        }
        assert(golden_fits(pairs[pairs.len() - 1]));
        assert(bytes =~= pre + goldens_image(first) + (image + tail));
        lemma_goldens_read(pre, first, image + tail);
        let mid = pre + goldens_image(first);
        assert(bytes =~= mid + image + tail);
        lemma_golden_read(mid, last, tail);
        assert(first.push(last) =~= pairs);
        assert((mid + image).len() == (pre + goldens_image(pairs)).len());
    } else {
        assert(pairs =~= Seq::empty());
    }
}

/// Golden vectors that have been written are read back, whatever stands behind them.
#[verifier::spinoff_prover]
#[verifier::rlimit(40)]
pub proof fn golden_is_read_back(
    pairs: Seq<(Seq<char>, Seq<u8>, Seq<(int, int)>)>,
    tail: Seq<u8>,
)
    requires
        goldens_fit(pairs),
    ensures
        golden_in(golden_image(pairs) + tail) == Ok::<
            Seq<(Seq<char>, Seq<u8>, Seq<(int, int)>)>,
            Seq<char>,
        >(pairs),
{
    let magic = GOLDEN_MAGIC@;
    let count = le32(pairs.len() as int);
    let bytes = golden_image(pairs) + tail;
    assert(bytes.subrange(0, magic.len() as int) =~= magic);
    assert(bytes =~= magic + count + (goldens_image(pairs) + tail));
    lemma_u32_read(magic, pairs.len() as int, goldens_image(pairs) + tail);
    assert(bytes =~= (magic + count) + goldens_image(pairs) + tail);
    lemma_goldens_read(magic + count, pairs, tail);
}

// ---------------------------------------------------------------------------
// What is cut off is refused.
// ---------------------------------------------------------------------------

/// A number that is read from a part of a file is the one in the file, and ends in the part.
proof fn lemma_u32_cut(bytes: Seq<u8>, n: int, pos: int)
    requires
        0 <= n <= bytes.len(),
        0 <= pos,
    ensures
        u32_at(bytes.take(n), pos) matches Ok((value, end)) ==> {
            &&& u32_at(bytes, pos) == Ok::<(int, int), Seq<char>>((value, end))
            &&& 0 <= value
            &&& pos <= end <= n
        },
{
}

proof fn lemma_blob_cut(bytes: Seq<u8>, n: int, pos: int)
    requires
        0 <= n <= bytes.len(),
        0 <= pos,
    ensures
        blob_at(bytes.take(n), pos) matches Ok((value, end)) ==> {
            &&& blob_at(bytes, pos) == Ok::<(Seq<u8>, int), Seq<char>>((value, end))
            &&& pos <= end <= n
        },
{
    lemma_u32_cut(bytes, n, pos);
    if let Ok((len, from)) = u32_at(bytes.take(n), pos) {
        if from + len <= n {
            assert(bytes.take(n).subrange(from, from + len) =~= bytes.subrange(from, from + len));
        }
    }
}

proof fn lemma_pair_cut(bytes: Seq<u8>, n: int, pos: int)
    requires
        0 <= n <= bytes.len(),
        0 <= pos,
    ensures
        pair_at(bytes.take(n), pos) matches Ok((pair, end)) ==> {
            &&& pair_at(bytes, pos) == Ok::<((Seq<char>, Seq<u8>), int), Seq<char>>((pair, end))
            &&& pos <= end <= n
        },
{
    lemma_blob_cut(bytes, n, pos);
    if let Ok((_, mid)) = blob_at(bytes.take(n), pos) {
        lemma_blob_cut(bytes, n, mid);
    }
}

proof fn lemma_pairs_cut(bytes: Seq<u8>, n: int, pos: int, count: int)
    requires
        0 <= pos <= n <= bytes.len(),
    ensures
        pairs_at(bytes.take(n), pos, count) matches Ok((pairs, end)) ==> {
            &&& pairs_at(bytes, pos, count) == Ok::<(Seq<(Seq<char>, Seq<u8>)>, int), Seq<char>>(
                (pairs, end),
            )
            &&& pos <= end <= n
        },
    decreases count,
{
    if count > 0 {
        lemma_pairs_cut(bytes, n, pos, count - 1);
        if let Ok((_, mid)) = pairs_at(bytes.take(n), pos, count - 1) {
            lemma_pair_cut(bytes, n, mid);
        }
    }
}

proof fn lemma_spans_cut(bytes: Seq<u8>, n: int, pos: int, count: int)
    requires
        0 <= pos <= n <= bytes.len(),
    ensures
        spans_at(bytes.take(n), pos, count) matches Ok((spans, end)) ==> {
            &&& spans_at(bytes, pos, count) == Ok::<(Seq<(int, int)>, int), Seq<char>>((spans, end))
            &&& pos <= end <= n
        },
    decreases count,
{
    if count > 0 {
        lemma_spans_cut(bytes, n, pos, count - 1);
        if let Ok((_, p0)) = spans_at(bytes.take(n), pos, count - 1) {
            lemma_u32_cut(bytes, n, p0);
            if let Ok((_, p1)) = u32_at(bytes.take(n), p0) {
                lemma_u32_cut(bytes, n, p1);
            }
        }
    }
}

proof fn lemma_golden_cut(bytes: Seq<u8>, n: int, pos: int)
    requires
        0 <= n <= bytes.len(),
        0 <= pos,
    ensures
        golden_at(bytes.take(n), pos) matches Ok((pair, end)) ==> {
            &&& golden_at(bytes, pos) == Ok::<
                ((Seq<char>, Seq<u8>, Seq<(int, int)>), int),
                Seq<char>,
            >((pair, end))
            &&& pos <= end <= n
        },
{
    lemma_pair_cut(bytes, n, pos);
    if let Ok((_, mid)) = pair_at(bytes.take(n), pos) {
        lemma_u32_cut(bytes, n, mid);
        if let Ok((count, from)) = u32_at(bytes.take(n), mid) {
            lemma_spans_cut(bytes, n, from, count);
        }
    }
}

proof fn lemma_goldens_cut(bytes: Seq<u8>, n: int, pos: int, count: int)
    requires
        0 <= pos <= n <= bytes.len(),
    ensures
        goldens_at(bytes.take(n), pos, count) matches Ok((pairs, end)) ==> {
            &&& goldens_at(bytes, pos, count) == Ok::<
                (Seq<(Seq<char>, Seq<u8>, Seq<(int, int)>)>, int),
                Seq<char>,
            >((pairs, end))
            &&& pos <= end <= n
        },
    decreases count,
{
    if count > 0 {
        lemma_goldens_cut(bytes, n, pos, count - 1);
        if let Ok((_, mid)) = goldens_at(bytes.take(n), pos, count - 1) {
            lemma_golden_cut(bytes, n, mid);
        }
    }
}

/// A corpus of which the end has been cut off is refused, however little is missing.
#[verifier::spinoff_prover]
#[verifier::rlimit(40)]
pub proof fn truncated_corpus_is_refused(pairs: Seq<(Seq<char>, Seq<u8>)>, n: int)
    requires
        corpus_fits(pairs),
        0 <= n < corpus_image(pairs).len(),
    ensures
        corpus_in(corpus_image(pairs).take(n)) is Err,
{
    let magic = CORPUS_MAGIC@;
    let count = le32(pairs.len() as int);
    let bytes = corpus_image(pairs);
    let none = Seq::<u8>::empty();
    let start = (magic + count).len() as int;
    assert(bytes =~= magic + count + pairs_image(pairs));
    lemma_u32_read(magic, pairs.len() as int, pairs_image(pairs));
    assert(bytes =~= (magic + count) + pairs_image(pairs) + none);
    lemma_pairs_read(magic + count, pairs, none);
    lemma_u32_cut(bytes, n, magic.len() as int);
    if u32_at(bytes.take(n), magic.len() as int) is Ok {
        lemma_pairs_cut(bytes, n, start, pairs.len() as int);
    }
}

/// A golden file of which the end has been cut off is refused, however little is missing.
#[verifier::spinoff_prover]
#[verifier::rlimit(40)]
pub proof fn truncated_golden_is_refused(
    pairs: Seq<(Seq<char>, Seq<u8>, Seq<(int, int)>)>,
    n: int,
)
    requires
        goldens_fit(pairs),
        0 <= n < golden_image(pairs).len(),
    ensures
        golden_in(golden_image(pairs).take(n)) is Err,
{
    let magic = GOLDEN_MAGIC@;
    let count = le32(pairs.len() as int);
    let bytes = golden_image(pairs);
    let none = Seq::<u8>::empty();
    let start = (magic + count).len() as int;
    assert(bytes =~= magic + count + goldens_image(pairs));
    lemma_u32_read(magic, pairs.len() as int, goldens_image(pairs));
    assert(bytes =~= (magic + count) + goldens_image(pairs) + none);
    lemma_goldens_read(magic + count, pairs, none);
    lemma_u32_cut(bytes, n, magic.len() as int);
    if u32_at(bytes.take(n), magic.len() as int) is Ok {
        lemma_goldens_cut(bytes, n, start, pairs.len() as int);
    }
}

/// A file whose magic has been changed is refused.
pub proof fn changed_magic_is_refused(bytes: Seq<u8>, i: int)
    requires
        0 <= i < bytes.len(),
    ensures
        i < CORPUS_MAGIC@.len() && bytes[i] != CORPUS_MAGIC@[i] ==> corpus_in(bytes) is Err,
        i < GOLDEN_MAGIC@.len() && bytes[i] != GOLDEN_MAGIC@[i] ==> golden_in(bytes) is Err,
{
    if begins_with(bytes, CORPUS_MAGIC@) && i < CORPUS_MAGIC@.len() {
        assert(bytes.subrange(0, CORPUS_MAGIC@.len() as int)[i] == bytes[i]);
    }
    if begins_with(bytes, GOLDEN_MAGIC@) && i < GOLDEN_MAGIC@.len() {
        assert(bytes.subrange(0, GOLDEN_MAGIC@.len() as int)[i] == bytes[i]);
    }
}

/// Neither format is taken for the other.
pub proof fn formats_are_told_apart(bytes: Seq<u8>)
    ensures
        corpus_in(bytes) is Ok ==> golden_in(bytes) is Err,
        golden_in(bytes) is Ok ==> corpus_in(bytes) is Err,
{
    if begins_with(bytes, CORPUS_MAGIC@) && begins_with(bytes, GOLDEN_MAGIC@) {
        assert(bytes.subrange(0, 19)[9] == CORPUS_MAGIC@[9]);
        assert(bytes.subrange(0, 19)[9] == GOLDEN_MAGIC@[9]);
    }
}

/// The bytes of a corpus are those of the inputs of its pairs, together.
pub proof fn corpus_bytes_add_up(
    a: Seq<(Seq<char>, Seq<u8>)>,
    b: Seq<(Seq<char>, Seq<u8>)>,
    pair: (Seq<char>, Seq<u8>),
)
    ensures
        total_bytes(Seq::empty()) == 0,
        total_bytes(seq![pair]) == pair.1.len(),
        total_bytes(a + b) == total_bytes(a) + total_bytes(b),
    decreases b.len(),
{
    let one = seq![pair];
    assert(one.drop_last() =~= Seq::empty());
    assert(total_bytes(one.drop_last()) == 0);
    if b.len() == 0 {
        assert(a + b =~= a);
    } else {
        corpus_bytes_add_up(a, b.drop_last(), pair);
        assert((a + b).drop_last() =~= a + b.drop_last());
        assert((a + b).last() == b.last());
    }
}

}
