//! The bytes of a corpus and of golden vectors.
//!
//! A file is its magic, a count and so many pairs, each with the lengths of its parts before
//! them. What is read from a file is what stands in it, byte for byte.
use crate::corpus::{
    blob, blob_at, corpus_fits, corpus_image, corpus_in, golden_at, golden_fits, golden_image,
    golden_in, golden_pair_image, goldens_at, goldens_fit, goldens_image, le32, pair_at,
    pair_fits, pair_image, pairs_at, pairs_image, span_fits, spans_at, spans_image, u32_at,
    CORPUS_MAGIC, GOLDEN_MAGIC,
};
use vstd::prelude::*;
use vstd::utf8::{decode_utf8, decode_utf8_encode_utf8, encode_utf8, valid_utf8};

verus! {

/// The number that four bytes from `at` on say, the least significant first.
pub open spec fn says_number(bytes: Seq<u8>, at: int, n: int) -> bool {
    &&& 0 <= at && at + 4 <= bytes.len()
    &&& bytes[at] + bytes[at + 1] * 0x100 + bytes[at + 2] * 0x1_0000 + bytes[at + 3] * 0x100_0000
        == n
}

proof fn lemma_number_said(n: int)
    requires
        0 <= n <= u32::MAX,
    ensures
        says_number(le32(n), 0, n),
{
    assert(n == n % 256 + n / 256 % 256 * 256 + n / 65536 % 256 * 65536 + n / 16777216 % 256
        * 16777216) by (nonlinear_arith)
        requires
            0 <= n <= 0xffff_ffff,
    ;
}

/// The image of a pair is the length of the pattern, the pattern in UTF-8, the length of the
/// input and the input.
#[verifier::spinoff_prover]
#[verifier::rlimit(40)]
pub proof fn pairs_are_laid_out(pattern: Seq<char>, input: Seq<u8>)
    requires
        encode_utf8(pattern).len() <= u32::MAX,
        input.len() <= u32::MAX,
    ensures
        ({
            let image = pair_image((pattern, input));
            let source = encode_utf8(pattern);
            let n = source.len() as int;
            &&& image.len() == 4 + n + 4 + input.len()
            &&& says_number(image, 0, n)
            &&& image.subrange(4, 4 + n) == source
            &&& says_number(image, 4 + n, input.len() as int)
            &&& image.skip(8 + n) == input
        }),
{
    let image = pair_image((pattern, input));
    let source = encode_utf8(pattern);
    let n = source.len() as int;
    lemma_number_said(n);
    lemma_number_said(input.len() as int);
    let a = le32(n);
    let b = le32(input.len() as int);
    assert(image[0] == a[0] && image[1] == a[1] && image[2] == a[2] && image[3] == a[3]);
    assert(image[4 + n] == b[0] && image[5 + n] == b[1] && image[6 + n] == b[2] && image[7 + n]
        == b[3]);
    assert(image.subrange(4, 4 + n) =~= source);
    assert(image.skip(8 + n) =~= input);
}

/// A corpus is its name, the number of its pairs and the images of the pairs, one behind the
/// other.
#[verifier::spinoff_prover]
#[verifier::rlimit(40)]
pub proof fn corpora_are_laid_out(
    pairs: Seq<(Seq<char>, Seq<u8>)>,
    others: Seq<(Seq<char>, Seq<u8>)>,
    pair: (Seq<char>, Seq<u8>),
)
    requires
        pairs.len() <= u32::MAX,
    ensures
        ({
            let image = corpus_image(pairs);
            &&& image.len() >= 23
            &&& forall|i: int| 0 <= i < 19 ==> #[trigger] image[i] as int
                == "optiwork-corpus-v1\n"@[i] as int
            &&& says_number(image, 19, pairs.len() as int)
            &&& corpus_image(Seq::empty()).len() == 23
            &&& corpus_image(seq![pair]).skip(23) == pair_image(pair)
            &&& corpus_image(pairs + others).skip(23) == image.skip(23) + corpus_image(
                others,
            ).skip(23)
        }),
{
    let image = corpus_image(pairs);
    let count = le32(pairs.len() as int);
    reveal_strlit("optiwork-corpus-v1\n");
    lemma_number_said(pairs.len() as int);
    assert(image[19] == count[0] && image[20] == count[1] && image[21] == count[2] && image[22]
        == count[3]);
    assert(corpus_image(Seq::empty()).len() == 23);
    assert(seq![pair].drop_last() =~= Seq::empty());
    assert(pairs_image(seq![pair].drop_last()) =~= Seq::empty());
    assert(corpus_image(seq![pair]).skip(23) =~= pair_image(pair));
    lemma_pairs_add(pairs, others);
    assert(image.skip(23) =~= pairs_image(pairs));
    assert(corpus_image(others).skip(23) =~= pairs_image(others));
    assert(corpus_image(pairs + others).skip(23) =~= pairs_image(pairs + others));
    assert forall|i: int| 0 <= i < 19 implies #[trigger] image[i] as int
        == "optiwork-corpus-v1\n"@[i] as int by {
        assert(image[i] == CORPUS_MAGIC@[i]);
    }
}

proof fn lemma_pairs_add(a: Seq<(Seq<char>, Seq<u8>)>, b: Seq<(Seq<char>, Seq<u8>)>)
    ensures
        pairs_image(a + b) == pairs_image(a) + pairs_image(b),
    decreases b.len(),
{
    if b.len() == 0 {
        assert(a + b =~= a);
        assert(pairs_image(a) + pairs_image(b) =~= pairs_image(a));
    } else {
        lemma_pairs_add(a, b.drop_last());
        assert((a + b).drop_last() =~= a + b.drop_last());
        assert((a + b).last() == b.last());
        assert(pairs_image(a + b) =~= pairs_image(a) + pairs_image(b));
    }
}

/// The image of a golden pair is that of the pair, the number of its spans and the spans, each
/// as its start and its end.
#[verifier::spinoff_prover]
#[verifier::rlimit(40)]
pub proof fn golden_pairs_are_laid_out(
    pattern: Seq<char>,
    input: Seq<u8>,
    spans: Seq<(int, int)>,
    i: int,
)
    requires
        spans.len() <= u32::MAX,
        0 <= i < spans.len(),
        forall|k: int| 0 <= k < spans.len() ==> span_fits(#[trigger] spans[k]),
    ensures
        ({
            let image = golden_pair_image((pattern, input, spans));
            let at = pair_image((pattern, input)).len() as int;
            &&& image.len() == at + 4 + 8 * spans.len()
            &&& image.take(at) == pair_image((pattern, input))
            &&& says_number(image, at, spans.len() as int)
            &&& says_number(image, at + 4 + 8 * i, spans[i].0)
            &&& says_number(image, at + 8 + 8 * i, spans[i].1)
        }),
{
    let image = golden_pair_image((pattern, input, spans));
    let head = pair_image((pattern, input));
    let at = head.len() as int;
    let count = le32(spans.len() as int);
    let tail = spans_image(spans);
    lemma_number_said(spans.len() as int);
    lemma_spans_laid_out(spans, i);
    assert(image == head + count + tail);
    assert(image.take(at) =~= head);
    assert(image[at] == count[0] && image[at + 1] == count[1] && image[at + 2] == count[2]
        && image[at + 3] == count[3]);
    assert forall|k: int| 0 <= k < tail.len() implies image[at + 4 + k] == #[trigger] tail[k] by {}
    let p = 8 * i;
    assert(image[at + 4 + p] == tail[p]);
    assert(image[at + 4 + (p + 1)] == tail[p + 1]);
    assert(image[at + 4 + (p + 2)] == tail[p + 2]);
    assert(image[at + 4 + (p + 3)] == tail[p + 3]);
    assert(image[at + 4 + (p + 4)] == tail[p + 4]);
    assert(image[at + 4 + (p + 5)] == tail[p + 5]);
    assert(image[at + 4 + (p + 6)] == tail[p + 6]);
    assert(image[at + 4 + (p + 7)] == tail[p + 7]);
}

#[verifier::spinoff_prover]
#[verifier::rlimit(40)]
proof fn lemma_spans_laid_out(spans: Seq<(int, int)>, i: int)
    requires
        0 <= i < spans.len(),
        forall|k: int| 0 <= k < spans.len() ==> span_fits(#[trigger] spans[k]),
    ensures
        spans_image(spans).len() == 8 * spans.len(),
        says_number(spans_image(spans), 8 * i, spans[i].0),
        says_number(spans_image(spans), 8 * i + 4, spans[i].1),
    decreases spans.len(),
{
    let n = spans.len() - 1;
    let fewer = spans.drop_last();
    let before = spans_image(fewer);
    let image = spans_image(spans);
    assert forall|k: int| 0 <= k < fewer.len() implies span_fits(#[trigger] fewer[k]) by {
        assert(fewer[k] == spans[k]);
    }
    assert(span_fits(spans[n]));
    if n > 0 {
        lemma_spans_laid_out(fewer, if i < n { i } else { 0 });
    }
    assert(before.len() == 8 * n);
    if i < n {
        assert(forall|k: int| 0 <= k < before.len() ==> image[k] == before[k]);
    } else {
        lemma_number_said(spans[n].0);
        lemma_number_said(spans[n].1);
        let a = le32(spans[n].0);
        let b = le32(spans[n].1);
        let p = 8 * n;
        assert(image[p] == a[0] && image[p + 1] == a[1] && image[p + 2] == a[2] && image[p + 3]
            == a[3]);
        assert(image[p + 4] == b[0] && image[p + 5] == b[1] && image[p + 6] == b[2] && image[p + 7]
            == b[3]);
    }
}

// ---------------------------------------------------------------------------
// What is read stands there.
// ---------------------------------------------------------------------------

/// Whether `image` stands in `bytes` from `from` to `to`.
pub open spec fn stands(bytes: Seq<u8>, image: Seq<u8>, from: int, to: int) -> bool {
    0 <= from <= to <= bytes.len() && bytes.subrange(from, to) == image
}

proof fn lemma_stands_behind(bytes: Seq<u8>, a: Seq<u8>, b: Seq<u8>, from: int, mid: int, to: int)
    requires
        stands(bytes, a, from, mid),
        stands(bytes, b, mid, to),
    ensures
        stands(bytes, a + b, from, to),
{
    assert(bytes.subrange(from, to) =~= a + b);
}

#[verifier::spinoff_prover]
#[verifier::rlimit(40)]
proof fn lemma_number_stands(bytes: Seq<u8>, pos: int)
    requires
        0 <= pos,
        u32_at(bytes, pos) is Ok,
    ensures
        ({
            let (n, end) = u32_at(bytes, pos)->Ok_0;
            &&& 0 <= n <= u32::MAX
            &&& stands(bytes, le32(n), pos, end)
        }),
{
    let (n, end) = u32_at(bytes, pos)->Ok_0;
    let a = bytes[pos] as int;
    let b = bytes[pos + 1] as int;
    let c = bytes[pos + 2] as int;
    let d = bytes[pos + 3] as int;
    assert(n == a + b * 256 + c * 65536 + d * 16777216);
    assert(n % 256 == a);
    assert(n / 256 == b + c * 256 + d * 65536);
    assert(n / 256 % 256 == b);
    assert(n / 65536 == c + d * 256);
    assert(n / 65536 % 256 == c);
    assert(n / 16777216 == d);
    assert(bytes.subrange(pos, end) =~= le32(n));
}

proof fn lemma_blob_stands(bytes: Seq<u8>, pos: int)
    requires
        0 <= pos,
        blob_at(bytes, pos) is Ok,
    ensures
        ({
            let (read, end) = blob_at(bytes, pos)->Ok_0;
            &&& read.len() <= u32::MAX
            &&& stands(bytes, blob(read), pos, end)
        }),
{
    lemma_number_stands(bytes, pos);
    let (n, from) = u32_at(bytes, pos)->Ok_0;
    let (read, end) = blob_at(bytes, pos)->Ok_0;
    assert(read.len() == n);
    lemma_stands_behind(bytes, le32(n), read, pos, from, end);
}

proof fn lemma_pair_stands(bytes: Seq<u8>, pos: int)
    requires
        0 <= pos,
        pair_at(bytes, pos) is Ok,
    ensures
        ({
            let (pair, end) = pair_at(bytes, pos)->Ok_0;
            &&& pair_fits(pair)
            &&& stands(bytes, pair_image(pair), pos, end)
        }),
{
    lemma_blob_stands(bytes, pos);
    let (source, mid) = blob_at(bytes, pos)->Ok_0;
    assert(valid_utf8(source));
    decode_utf8_encode_utf8(source);
    assert(encode_utf8(decode_utf8(source)) == source);
    lemma_blob_stands(bytes, mid);
    let (input, end) = blob_at(bytes, mid)->Ok_0;
    lemma_stands_behind(bytes, blob(source), blob(input), pos, mid, end);
}

proof fn lemma_pairs_stand(bytes: Seq<u8>, pos: int, n: int)
    requires
        0 <= pos <= bytes.len(),
        0 <= n,
        pairs_at(bytes, pos, n) is Ok,
    ensures
        ({
            let (pairs, end) = pairs_at(bytes, pos, n)->Ok_0;
            &&& pairs.len() == n
            &&& forall|i: int| 0 <= i < pairs.len() ==> pair_fits(#[trigger] pairs[i])
            &&& stands(bytes, pairs_image(pairs), pos, end)
        }),
    decreases n,
{
    if n == 0 {
        assert(bytes.subrange(pos, pos) =~= Seq::empty());
    } else {
        lemma_pairs_stand(bytes, pos, n - 1);
        let (before, mid) = pairs_at(bytes, pos, n - 1)->Ok_0;
        lemma_pair_stands(bytes, mid);
        let (pair, end) = pair_at(bytes, mid)->Ok_0;
        let pairs = before.push(pair);
        lemma_stands_behind(bytes, pairs_image(before), pair_image(pair), pos, mid, end);
        assert(pairs.drop_last() =~= before);
    }
}

/// What is read from a corpus stands in it: the file begins with the image of the pairs that
/// are read, and there are as many as it says.
#[verifier::spinoff_prover]
#[verifier::rlimit(40)]
pub proof fn only_corpora_are_read(bytes: Seq<u8>)
    requires
        corpus_in(bytes) is Ok,
    ensures
        corpus_fits(corpus_in(bytes)->Ok_0),
        corpus_image(corpus_in(bytes)->Ok_0).len() <= bytes.len(),
        bytes.take(corpus_image(corpus_in(bytes)->Ok_0).len() as int) == corpus_image(
            corpus_in(bytes)->Ok_0,
        ),
{
    let magic = CORPUS_MAGIC@;
    let pairs = corpus_in(bytes)->Ok_0;
    lemma_number_stands(bytes, 19);
    let (count, pos) = u32_at(bytes, 19)->Ok_0;
    lemma_pairs_stand(bytes, pos, count);
    let end = (pairs_at(bytes, pos, count)->Ok_0).1;
    lemma_stands_behind(bytes, magic, le32(count), 0, 19, pos);
    lemma_stands_behind(bytes, magic + le32(count), pairs_image(pairs), 0, pos, end);
    assert(bytes.take(end) =~= bytes.subrange(0, end));
    assert(corpus_image(pairs).len() == end);
}

proof fn lemma_spans_stand(bytes: Seq<u8>, pos: int, n: int)
    requires
        0 <= pos <= bytes.len(),
        0 <= n,
        spans_at(bytes, pos, n) is Ok,
    ensures
        ({
            let (spans, end) = spans_at(bytes, pos, n)->Ok_0;
            &&& spans.len() == n
            &&& forall|i: int| 0 <= i < spans.len() ==> span_fits(#[trigger] spans[i])
            &&& stands(bytes, spans_image(spans), pos, end)
        }),
    decreases n,
{
    if n == 0 {
        assert(bytes.subrange(pos, pos) =~= Seq::empty());
    } else {
        lemma_spans_stand(bytes, pos, n - 1);
        let (before, from) = spans_at(bytes, pos, n - 1)->Ok_0;
        lemma_number_stands(bytes, from);
        let (a, mid) = u32_at(bytes, from)->Ok_0;
        lemma_number_stands(bytes, mid);
        let (b, end) = u32_at(bytes, mid)->Ok_0;
        let spans = before.push((a, b));
        lemma_stands_behind(bytes, spans_image(before), le32(a), pos, from, mid);
        lemma_stands_behind(bytes, spans_image(before) + le32(a), le32(b), pos, mid, end);
        assert(spans.drop_last() =~= before);
        assert(spans_at(bytes, pos, n)->Ok_0 == (spans, end));
    }
}

proof fn lemma_golden_stands(bytes: Seq<u8>, pos: int)
    requires
        0 <= pos,
        golden_at(bytes, pos) is Ok,
    ensures
        ({
            let (pair, end) = golden_at(bytes, pos)->Ok_0;
            &&& golden_fits(pair)
            &&& stands(bytes, golden_pair_image(pair), pos, end)
        }),
{
    lemma_pair_stands(bytes, pos);
    let (pair, mid) = pair_at(bytes, pos)->Ok_0;
    lemma_number_stands(bytes, mid);
    let (n, from) = u32_at(bytes, mid)->Ok_0;
    lemma_spans_stand(bytes, from, n);
    let (spans, end) = spans_at(bytes, from, n)->Ok_0;
    lemma_stands_behind(bytes, pair_image(pair), le32(n), pos, mid, from);
    lemma_stands_behind(bytes, pair_image(pair) + le32(n), spans_image(spans), pos, from, end);
    assert(golden_at(bytes, pos)->Ok_0 == ((pair.0, pair.1, spans), end));
    assert((pair.0, pair.1) == pair);
}

proof fn lemma_goldens_stand(bytes: Seq<u8>, pos: int, n: int)
    requires
        0 <= pos <= bytes.len(),
        0 <= n,
        goldens_at(bytes, pos, n) is Ok,
    ensures
        ({
            let (pairs, end) = goldens_at(bytes, pos, n)->Ok_0;
            &&& pairs.len() == n
            &&& forall|i: int| 0 <= i < pairs.len() ==> golden_fits(#[trigger] pairs[i])
            &&& stands(bytes, goldens_image(pairs), pos, end)
        }),
    decreases n,
{
    if n == 0 {
        assert(bytes.subrange(pos, pos) =~= Seq::empty());
    } else {
        lemma_goldens_stand(bytes, pos, n - 1);
        let (before, mid) = goldens_at(bytes, pos, n - 1)->Ok_0;
        lemma_golden_stands(bytes, mid);
        let (pair, end) = golden_at(bytes, mid)->Ok_0;
        let pairs = before.push(pair);
        lemma_stands_behind(bytes, goldens_image(before), golden_pair_image(pair), pos, mid, end);
        assert(pairs.drop_last() =~= before);
    }
}

/// What is read from a golden file stands in it: the file begins with the image of the pairs
/// that are read, and there are as many as it says.
#[verifier::spinoff_prover]
#[verifier::rlimit(40)]
pub proof fn only_golden_vectors_are_read(bytes: Seq<u8>)
    requires
        golden_in(bytes) is Ok,
    ensures
        goldens_fit(golden_in(bytes)->Ok_0),
        golden_image(golden_in(bytes)->Ok_0).len() <= bytes.len(),
        bytes.take(golden_image(golden_in(bytes)->Ok_0).len() as int) == golden_image(
            golden_in(bytes)->Ok_0,
        ),
{
    let magic = GOLDEN_MAGIC@;
    let pairs = golden_in(bytes)->Ok_0;
    lemma_number_stands(bytes, 19);
    let (count, pos) = u32_at(bytes, 19)->Ok_0;
    lemma_goldens_stand(bytes, pos, count);
    let end = (goldens_at(bytes, pos, count)->Ok_0).1;
    lemma_stands_behind(bytes, magic, le32(count), 0, 19, pos);
    lemma_stands_behind(bytes, magic + le32(count), goldens_image(pairs), 0, pos, end);
    assert(bytes.take(end) =~= bytes.subrange(0, end));
    assert(golden_image(pairs).len() == end);
}

/// A golden file is its name, the number of its pairs and the images of the pairs, one behind
/// the other.
#[verifier::spinoff_prover]
#[verifier::rlimit(40)]
pub proof fn golden_files_are_laid_out(
    pairs: Seq<(Seq<char>, Seq<u8>, Seq<(int, int)>)>,
    others: Seq<(Seq<char>, Seq<u8>, Seq<(int, int)>)>,
    pair: (Seq<char>, Seq<u8>, Seq<(int, int)>),
)
    requires
        pairs.len() <= u32::MAX,
    ensures
        ({
            let image = golden_image(pairs);
            &&& image.len() >= 23
            &&& forall|i: int| 0 <= i < 19 ==> #[trigger] image[i] as int
                == "optiwork-golden-v1\n"@[i] as int
            &&& says_number(image, 19, pairs.len() as int)
            &&& golden_image(Seq::empty()).len() == 23
            &&& golden_image(seq![pair]).skip(23) == golden_pair_image(pair)
            &&& golden_image(pairs + others).skip(23) == image.skip(23) + golden_image(
                others,
            ).skip(23)
        }),
{
    let image = golden_image(pairs);
    let count = le32(pairs.len() as int);
    reveal_strlit("optiwork-golden-v1\n");
    lemma_number_said(pairs.len() as int);
    assert(image[19] == count[0] && image[20] == count[1] && image[21] == count[2] && image[22]
        == count[3]);
    assert(golden_image(Seq::empty()).len() == 23);
    assert(seq![pair].drop_last() =~= Seq::empty());
    assert(goldens_image(seq![pair].drop_last()) =~= Seq::empty());
    assert(golden_image(seq![pair]).skip(23) =~= golden_pair_image(pair));
    lemma_goldens_add(pairs, others);
    assert(image.skip(23) =~= goldens_image(pairs));
    assert(golden_image(others).skip(23) =~= goldens_image(others));
    assert(golden_image(pairs + others).skip(23) =~= goldens_image(pairs + others));
    assert forall|i: int| 0 <= i < 19 implies #[trigger] image[i] as int
        == "optiwork-golden-v1\n"@[i] as int by {
        assert(image[i] == GOLDEN_MAGIC@[i]);
    }
}

proof fn lemma_goldens_add(
    a: Seq<(Seq<char>, Seq<u8>, Seq<(int, int)>)>,
    b: Seq<(Seq<char>, Seq<u8>, Seq<(int, int)>)>,
)
    ensures
        goldens_image(a + b) == goldens_image(a) + goldens_image(b),
    decreases b.len(),
{
    if b.len() == 0 {
        assert(a + b =~= a);
        assert(goldens_image(a) + goldens_image(b) =~= goldens_image(a));
    } else {
        lemma_goldens_add(a, b.drop_last());
        assert((a + b).drop_last() =~= a + b.drop_last());
        assert((a + b).last() == b.last());
        assert(goldens_image(a + b) =~= goldens_image(a) + goldens_image(b));
    }
}

}
