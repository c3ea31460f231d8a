use vstd::prelude::*;

use crate::blocks::{
    block_start, lemma_block_start_injective, lemma_block_start_shape, spec_index_of,
    PADDING_BLOCK_START,
};
use crate::decoder::{block_of, classify, decode_run, decoded, lemma_run_stops, Chunk, DecodeRun, Error};
use crate::encoder::{chunk_code_point, encoded, encoded_text, line_break, wrap_ok, wrap_text, WrapOptions};

verus! {

/// A code point that belongs to no block of the encoding.
pub open spec fn is_garbage(c: char) -> bool {
    block_of(c) != PADDING_BLOCK_START && spec_index_of(block_of(c)) is None
}

/// The decoder's state after the full encoding of `b`.
pub open spec fn run_of_bytes(b: Seq<u8>) -> DecodeRun {
    DecodeRun { out: b, done: b.len() % 2 == 1, err: None }
}

/// The reverse index finds the second byte of every block.
proof fn lemma_index_of_block(b: u8)
    ensures
        spec_index_of(block_start(b)) == Some(b),
{
    assert(exists|x: u8| block_start(x) == block_start(b));
    let x = choose|x: u8| block_start(x) == block_start(b);
    lemma_block_start_injective(x, b);
}

/// The code point of the last chunk of `b` is read back as that chunk.
proof fn lemma_last_chunk(b: Seq<u8>, done: bool, index: int, ignore_garbage: bool)
    requires
        b.len() > 0,
        done == false,
    ensures
        ({
            let k = (b.len() + 1) / 2 - 1;
            let c = chunk_code_point(b, k) as char;
            if 2 * k + 1 < b.len() {
                classify(c, index, done, ignore_garbage) == Chunk::Pair(
                    b[2 * k],
                    b[2 * k + 1],
                )
            } else {
                classify(c, index, done, ignore_garbage) == Chunk::Single(b[2 * k])
            }
        }),
{
    let k = (b.len() + 1) / 2 - 1;
    let cp = chunk_code_point(b, k);
    if 2 * k + 1 < b.len() {
        lemma_block_start_shape(b[2 * k + 1]);
        lemma_index_of_block(b[2 * k + 1]);
    }
    assert((cp as char) as u32 == cp);
}

/// Skipping code points outside the encoding leaves the decoder as it was.
proof fn lemma_skip_garbage(s: Seq<char>, g: Seq<char>)
    requires
        forall|i: int| 0 <= i < g.len() ==> is_garbage(#[trigger] g[i]),
    ensures
        decode_run(s + g, true) == decode_run(s, true),
    decreases g.len(),
{
    if g.len() == 0 {
        assert(s + g =~= s);
    } else {
        assert((s + g).drop_last() =~= s + g.drop_last());
        lemma_skip_garbage(s, g.drop_last());
        assert(is_garbage(g.last()));
    }
}

/// The encoding of `b`, in lines whose endings the decoder skips, decodes to `b`.
proof fn lemma_decode_encoded(b: Seq<u8>, wrap: WrapOptions, ignore_garbage: bool)
    requires
        wrap_ok(wrap),
        wrap is NoWrap || (ignore_garbage && forall|k: int, i: int|
            0 <= i < line_break(wrap, k).len() ==> is_garbage(#[trigger] line_break(wrap, k)[i])),
    ensures
        decode_run(encoded_text(b, wrap), ignore_garbage) == run_of_bytes(b),
    decreases b.len(),
{
    let cps = encoded(b);
    if cps.len() == 0 {
        assert(b =~= Seq::<u8>::empty());
    } else {
        let k = cps.len() - 1;
        let prev = b.take(2 * k);
        assert(cps.drop_last() =~= encoded(prev));
        lemma_decode_encoded(prev, wrap, ignore_garbage);
        let head = wrap_text(cps.drop_last(), wrap);
        let lb = line_break(wrap, k);
        if wrap is NoWrap {
            assert(head + lb =~= head);
        } else {
            lemma_skip_garbage(head, lb);
        }
        let text = encoded_text(b, wrap);
        assert(text.drop_last() =~= head + lb);
        lemma_last_chunk(b, false, text.len() - 1, ignore_garbage);
        assert(decode_run(text, ignore_garbage).out =~= b);
    }
}

/// Decoding the unwrapped encoding of any bytes gives those bytes back.
pub proof fn round_trip(b: Seq<u8>)
    ensures
        decoded(encoded_text(b, WrapOptions::NoWrap), false) == Ok::<Seq<u8>, Error>(b),
{
    lemma_decode_encoded(b, WrapOptions::NoWrap, false);
}

/// The encoding of any bytes, wrapped at any width with `'\n'`, decodes to
/// those bytes when code points outside the encoding are ignored.
pub proof fn wrapped_round_trip_ignoring_garbage(b: Seq<u8>, columns: usize)
    requires
        columns >= 1,
    ensures
        decoded(encoded_text(b, WrapOptions::WrapAt(columns)), true) == Ok::<Seq<u8>, Error>(b),
{
    let wrap = WrapOptions::WrapAt(columns);
    assert forall|k: int, i: int| 0 <= i < line_break(wrap, k).len() implies is_garbage(
        #[trigger] line_break(wrap, k)[i],
    ) by {
        let c = line_break(wrap, k)[i];
        assert(c == '\n');
        lemma_index_of_none_below(block_of(c));
    }
    lemma_decode_encoded(b, wrap, true);
}

/// No block starts below the first CJK block.
proof fn lemma_index_of_none_below(start: u32)
    requires
        start < 0x3400,
    ensures
        spec_index_of(start) is None,
{
    assert forall|b: u8| block_start(b) != start by {
        lemma_block_start_shape(b);
    }
}

/// The text for the first `j` code points comes first in the text for all of them.
proof fn lemma_wrap_prefix(cps: Seq<char>, j: int, wrap: WrapOptions)
    requires
        0 <= j <= cps.len(),
    ensures
        wrap_text(cps.take(j), wrap).len() <= wrap_text(cps, wrap).len(),
        wrap_text(cps, wrap).take(wrap_text(cps.take(j), wrap).len() as int) == wrap_text(
            cps.take(j),
            wrap,
        ),
    decreases cps.len() - j,
{
    if j == cps.len() {
        assert(cps.take(j) =~= cps);
        assert(wrap_text(cps, wrap).take(wrap_text(cps, wrap).len() as int) =~= wrap_text(cps, wrap));
    } else {
        lemma_wrap_prefix(cps, j + 1, wrap);
        let next = cps.take(j + 1);
        assert(next.drop_last() =~= cps.take(j));
        let short = wrap_text(cps.take(j), wrap);
        let long = wrap_text(next, wrap);
        assert(long.take(short.len() as int) =~= short);
        assert(wrap_text(cps, wrap).take(short.len() as int) =~= short);
    }
}

/// Once any wrapped line ending is present, a strict decode of the wrapped
/// encoding fails.
pub proof fn wrapped_rejected_when_strict(b: Seq<u8>, columns: usize)
    requires
        columns >= 1,
        encoded(b).len() > columns,
    ensures
        decoded(encoded_text(b, WrapOptions::WrapAt(columns)), false) is Err,
{
    let wrap = WrapOptions::WrapAt(columns);
    let cps = encoded(b);
    let text = encoded_text(b, wrap);
    let first = wrap_text(cps.take(columns as int), wrap);
    let upto = wrap_text(cps.take(columns + 1), wrap);
    assert(cps.take(columns + 1).drop_last() =~= cps.take(columns as int));
    assert(line_break(wrap, columns as int) == seq!['\n']) by {
        assert((columns as int) % (columns as int) == 0) by (nonlinear_arith)
            requires columns >= 1;
    }
    lemma_wrap_prefix(cps, columns + 1, wrap);
    let broken = first.push('\n');
    assert(upto.take(broken.len() as int) =~= broken);
    assert(text.take(broken.len() as int) =~= broken);
    assert(broken.drop_last() =~= first);
    lemma_index_of_none_below(block_of('\n'));
    assert(decode_run(broken, false).err is Some);
    lemma_run_stops(text, broken.len() as int, false);
}

/// A code point of one of the 256 paired blocks.
pub open spec fn is_paired(c: char) -> bool {
    spec_index_of(block_of(c)) is Some
}

/// A code point of the encoding: paired, or padding.
pub open spec fn is_encoding_code_point(c: char) -> bool {
    block_of(c) == PADDING_BLOCK_START || is_paired(c)
}

/// Paired code points alone leave the decoder streaming, with no error.
proof fn lemma_paired_prefix(s: Seq<char>, m: int, ignore_garbage: bool)
    requires
        0 <= m <= s.len(),
        forall|i: int| 0 <= i < m ==> is_paired(#[trigger] s[i]),
    ensures
        decode_run(s.take(m), ignore_garbage).err is None,
        !decode_run(s.take(m), ignore_garbage).done,
    decreases m,
{
    if m > 0 {
        assert(s.take(m).drop_last() =~= s.take(m - 1));
        lemma_paired_prefix(s, m - 1, ignore_garbage);
        assert(is_paired(s[m - 1]));
        lemma_paired_not_padding(s[m - 1]);
    }
}

/// A paired code point is no padding code point.
proof fn lemma_paired_not_padding(c: char)
    requires
        is_paired(c),
    ensures
        block_of(c) != PADDING_BLOCK_START,
{
    let b = spec_index_of(block_of(c))->0;
    assert(block_start(b) == block_of(c));
    lemma_block_start_shape(b);
}

/// A strict decode of paired code points with one code point outside the
/// encoding fails on that code point, with its index.
pub proof fn invalid_code_point_reported_at_its_index(s: Seq<char>, k: int)
    requires
        0 <= k < s.len(),
        is_garbage(s[k]),
        forall|i: int| 0 <= i < s.len() && i != k ==> is_paired(#[trigger] s[i]),
    ensures
        decoded(s, false) == Err::<Seq<u8>, Error>(Error::InvalidCodePoint(k as usize, s[k])),
{
    lemma_paired_prefix(s, k, false);
    assert(s.take(k + 1).drop_last() =~= s.take(k));
    lemma_run_stops(s, k + 1, false);
}

/// Among code points of the encoding, the decoder has stopped on
/// `InvalidLength` or streams on, and after a padding code point it is no
/// longer streaming.
proof fn lemma_padding_terminates(s: Seq<char>, i: int, m: int, ignore_garbage: bool)
    requires
        0 <= i < s.len(),
        0 <= m <= s.len(),
        block_of(s[i]) == PADDING_BLOCK_START,
        forall|x: int| 0 <= x < s.len() ==> is_encoding_code_point(#[trigger] s[x]),
    ensures
        decode_run(s.take(m), ignore_garbage).err is None || decode_run(s.take(m), ignore_garbage).err
            == Some(Error::InvalidLength),
        m > i ==> (decode_run(s.take(m), ignore_garbage).err is Some || decode_run(
            s.take(m),
            ignore_garbage,
        ).done),
    decreases m,
{
    if m > 0 {
        assert(s.take(m).drop_last() =~= s.take(m - 1));
        lemma_padding_terminates(s, i, m - 1, ignore_garbage);
        assert(is_encoding_code_point(s[m - 1]));
    }
}

/// Two padding code points among code points of the encoding, wherever they
/// stand, make the decode fail with `InvalidLength`.
pub proof fn second_padding_is_invalid_length(s: Seq<char>, i: int, j: int, ignore_garbage: bool)
    requires
        0 <= i < j < s.len(),
        block_of(s[i]) == PADDING_BLOCK_START,
        block_of(s[j]) == PADDING_BLOCK_START,
        forall|x: int| 0 <= x < s.len() ==> is_encoding_code_point(#[trigger] s[x]),
    ensures
        decoded(s, ignore_garbage) == Err::<Seq<u8>, Error>(Error::InvalidLength),
{
    lemma_padding_terminates(s, i, j, ignore_garbage);
    lemma_padding_terminates(s, i, j + 1, ignore_garbage);
    assert(s.take(j + 1).drop_last() =~= s.take(j));
    lemma_run_stops(s, j + 1, ignore_garbage);
}

} // verus!
