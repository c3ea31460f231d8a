use vstd::prelude::*;
use vstd::utf8::encode_utf8;

use crate::blocks::{index_of, spec_index_of, PADDING_BLOCK_START};

verus! {

/// What can go wrong while decoding.
#[derive(Clone, Copy, Debug, PartialEq, Eq, Hash, Structural)]
pub enum Error {
    /// A code point outside every block of the encoding was found: the index
    /// of the code point in the input, and the code point itself.
    InvalidCodePoint(usize, char),
    /// The stream went on after its terminating padding code point.
    InvalidLength,
}

impl Error {
    /// A short description of the kind of error.
    pub fn description(&self) -> (r: &'static str)
        ensures
            self is InvalidCodePoint ==> r@ == "invalid code point"@,
            self is InvalidLength ==> r@ == "invalid length"@,
    {
        match self {
            Error::InvalidCodePoint(_, _) => "invalid code point",
            Error::InvalidLength => "invalid length",
        }
    }
}

/// The meaning of one input code point, given the decoder's state.
pub enum Chunk {
    /// Not a code point of the encoding; skipped.
    Garbage,
    /// A padding code point: one final byte.
    Single(u8),
    /// A paired code point: two bytes, in order.
    Pair(u8, u8),
    /// Decoding stops with this error.
    Fail(Error),
}

/// The low byte of a code point: the first byte of its chunk.
pub open spec fn low_byte(c: char) -> u8 {
    ((c as u32) % 0x100) as u8
}

/// The start of the 256-code-point block that holds `c`.
pub open spec fn block_of(c: char) -> u32 {
    ((c as u32) - ((c as u32) % 0x100)) as u32
}

/// How the code point `c`, found at `index`, is read, when the stream has
/// (`done`) or has not yet seen its padding code point.
pub open spec fn classify(c: char, index: int, done: bool, ignore_garbage: bool) -> Chunk {
    if block_of(c) == PADDING_BLOCK_START {
        if done {
            Chunk::Fail(Error::InvalidLength)
        } else {
            Chunk::Single(low_byte(c))
        }
    } else if spec_index_of(block_of(c)) is Some {
        if done {
            Chunk::Fail(Error::InvalidLength)
        } else {
            Chunk::Pair(low_byte(c), spec_index_of(block_of(c))->0)
        }
    } else if !ignore_garbage {
        Chunk::Fail(Error::InvalidCodePoint(index as usize, c))
    } else {
        Chunk::Garbage
    }
}

/// The decoder's state after a prefix of its input: the bytes written so
/// far, whether the padding code point was seen, and the error it stopped
/// on, if any.
pub struct DecodeRun {
    pub out: Seq<u8>,
    pub done: bool,
    pub err: Option<Error>,
}

/// One step of the decoder.
pub open spec fn advance(run: DecodeRun, chunk: Chunk) -> DecodeRun {
    match chunk {
        Chunk::Garbage => run,
        Chunk::Single(a) => DecodeRun { out: run.out.push(a), done: true, err: None },
        Chunk::Pair(a, b) => DecodeRun { out: run.out.push(a).push(b), done: run.done, err: None },
        Chunk::Fail(e) => DecodeRun { err: Some(e), ..run },
    }
}

/// The decoder's state after reading all of `s`; it stops at the first error.
pub open spec fn decode_run(s: Seq<char>, ignore_garbage: bool) -> DecodeRun
    decreases s.len(),
{
    if s.len() == 0 {
        DecodeRun { out: Seq::empty(), done: false, err: None }
    } else {
        let prev = decode_run(s.drop_last(), ignore_garbage);
        if prev.err is Some {
            prev
        } else {
            advance(prev, classify(s.last(), s.len() - 1, prev.done, ignore_garbage))
        }
    }
}

/// What decoding `s` returns.
pub open spec fn decoded(s: Seq<char>, ignore_garbage: bool) -> Result<Seq<u8>, Error> {
    let run = decode_run(s, ignore_garbage);
    match run.err {
        Some(e) => Err(e),
        None => Ok(run.out),
    }
}

/// Reads the code point `c`, found at `index`, given whether the padding
/// code point was already seen.
pub fn decode_code_point(c: char, index: usize, done: bool, ignore_garbage: bool) -> (r: Chunk)
    ensures
        r == classify(c, index as int, done, ignore_garbage),
{
    let code_point = c as u32;
    let byte1 = code_point % 0x100;
    let start = code_point - byte1;
    if start == PADDING_BLOCK_START {
        if done {
            Chunk::Fail(Error::InvalidLength)
        } else {
            Chunk::Single(byte1 as u8)
        }
    } else {
        match index_of(start) {
            Some(byte2) => {
                if done {
                    Chunk::Fail(Error::InvalidLength)
                } else {
                    Chunk::Pair(byte1 as u8, byte2)
                }
            },
            None => {
                if !ignore_garbage {
                    Chunk::Fail(Error::InvalidCodePoint(index, c))
                } else {
                    Chunk::Garbage
                }
            },
        }
    }
}

/// Once the decoder has stopped on an error, the rest of the input is not read.
pub proof fn lemma_run_stops(s: Seq<char>, m: int, ignore_garbage: bool)
    requires
        0 <= m <= s.len(),
        decode_run(s.take(m), ignore_garbage).err is Some,
    ensures
        decode_run(s, ignore_garbage) == decode_run(s.take(m), ignore_garbage),
    decreases s.len() - m,
{
    if m < s.len() {
        assert(s.take(m + 1).drop_last() =~= s.take(m));
        lemma_run_stops(s, m + 1, ignore_garbage);
    } else {
        assert(s.take(m) =~= s);
    }
}

/// A string has no more characters than its UTF-8 encoding has bytes.
proof fn lemma_chars_within_bytes(chars: Seq<char>)
    ensures
        chars.len() <= encode_utf8(chars).len(),
    decreases chars.len(),
{
    if chars.len() > 0 {
        lemma_chars_within_bytes(chars.drop_first());
    }
}

/// Decodes `input`, appending the bytes to `buf`. On an error, `buf` keeps
/// the bytes decoded before it.
pub fn decode_buf(input: &str, buf: &mut Vec<u8>, ignore_garbage: bool) -> (r: Result<(), Error>)
    ensures
        final(buf)@ == old(buf)@ + decode_run(input@, ignore_garbage).out,
        r is Ok <==> decode_run(input@, ignore_garbage).err is None,
        r matches Err(e) ==> decode_run(input@, ignore_garbage).err == Some(e),
{
    // the code-point index below stays under the byte length, a `usize`
    let n_bytes = input.as_bytes().len();
    proof {
        lemma_chars_within_bytes(input@);
    }
    let mut done = false;
    let mut index: usize = 0;
    for c in it: input.chars()
        invariant
            it.seq() == input@,
            index == it.index(),
            input@.len() <= n_bytes,
            decode_run(input@.take(index as int), ignore_garbage).err is None,
            decode_run(input@.take(index as int), ignore_garbage).done == done,
            buf@ == old(buf)@ + decode_run(input@.take(index as int), ignore_garbage).out,
    {
        let ghost prefix = input@.take(index + 1);
        assert(prefix.drop_last() =~= input@.take(index as int));
        match decode_code_point(c, index, done, ignore_garbage) {
            Chunk::Garbage => {},
            Chunk::Single(a) => {
                buf.push(a);
                done = true;
            },
            Chunk::Pair(a, b) => {
                buf.push(a);
                buf.push(b);
            },
            Chunk::Fail(e) => {
                proof {
                    assert(decode_run(prefix, ignore_garbage).out == decode_run(
                        input@.take(index as int),
                        ignore_garbage,
                    ).out);
                    lemma_run_stops(input@, index + 1, ignore_garbage);
                }
                return Err(e);
            },
        }
        assert(buf@ =~= old(buf)@ + decode_run(prefix, ignore_garbage).out);
        index = index + 1;
    }
    assert(input@.take(index as int) =~= input@);
    Ok(())
}

/// Decodes `input` into a new vector.
pub fn decode(input: &str, ignore_garbage: bool) -> (r: Result<Vec<u8>, Error>)
    ensures
        r matches Ok(v) ==> decoded(input@, ignore_garbage) == Ok::<Seq<u8>, Error>(v@),
        r matches Err(e) ==> decoded(input@, ignore_garbage) == Err::<Seq<u8>, Error>(e),
{
    let mut buf: Vec<u8> = Vec::with_capacity(input.len());
    match decode_buf(input, &mut buf, ignore_garbage) {
        Ok(()) => {
            assert(buf@ =~= decode_run(input@, ignore_garbage).out);
            Ok(buf)
        },
        Err(e) => Err(e),
    }
}

/// Decodes `input` into the front of `buf`, returning how many bytes were
/// written. On an error, the front of `buf` holds the bytes decoded before
/// it. `buf` must have room for every byte decoded.
pub fn decode_slice(input: &str, buf: &mut [u8], ignore_garbage: bool) -> (r: Result<usize, Error>)
    requires
        decode_run(input@, ignore_garbage).out.len() <= old(buf)@.len(),
    ensures
        final(buf)@ == decode_run(input@, ignore_garbage).out + old(buf)@.skip(
            decode_run(input@, ignore_garbage).out.len() as int,
        ),
        r is Ok <==> decode_run(input@, ignore_garbage).err is None,
        r matches Ok(n) ==> n == decode_run(input@, ignore_garbage).out.len(),
        r matches Err(e) ==> decode_run(input@, ignore_garbage).err == Some(e),
{
    let n_bytes = input.as_bytes().len();
    proof {
        lemma_chars_within_bytes(input@);
    }
    let mut done = false;
    let mut index: usize = 0;
    let mut pos: usize = 0;
    for c in it: input.chars()
        invariant
            it.seq() == input@,
            index == it.index(),
            input@.len() <= n_bytes,
            decode_run(input@.take(index as int), ignore_garbage).err is None,
            decode_run(input@.take(index as int), ignore_garbage).done == done,
            pos == decode_run(input@.take(index as int), ignore_garbage).out.len(),
            buf@.len() == old(buf)@.len(),
            buf@ == decode_run(input@.take(index as int), ignore_garbage).out + old(buf)@.skip(
                pos as int,
            ),
            decode_run(input@, ignore_garbage).out.len() <= old(buf)@.len(),
    {
        let ghost prefix = input@.take(index + 1);
        assert(prefix.drop_last() =~= input@.take(index as int));
        proof {
            lemma_run_out_grows(input@, index + 1, ignore_garbage);
        }
        match decode_code_point(c, index, done, ignore_garbage) {
            Chunk::Garbage => {},
            Chunk::Single(a) => {
                buf[pos] = a;
                pos = pos + 1;
                done = true;
            },
            Chunk::Pair(a, b) => {
                buf[pos] = a;
                buf[pos + 1] = b;
                pos = pos + 2;
            },
            Chunk::Fail(e) => {
                proof {
                    lemma_run_stops(input@, index + 1, ignore_garbage);
                }
                return Err(e);
            },
        }
        assert(buf@ =~= decode_run(prefix, ignore_garbage).out + old(buf)@.skip(pos as int));
        index = index + 1;
    }
    assert(input@.take(index as int) =~= input@);
    Ok(pos)
}

/// The bytes written after a prefix of the input are a prefix of those
/// written after all of it.
pub proof fn lemma_run_out_grows(s: Seq<char>, m: int, ignore_garbage: bool)
    requires
        0 <= m <= s.len(),
    ensures
        decode_run(s.take(m), ignore_garbage).out.len() <= decode_run(s, ignore_garbage).out.len(),
    decreases s.len() - m,
{
    if m < s.len() {
        assert(s.take(m + 1).drop_last() =~= s.take(m));
        lemma_run_out_grows(s, m + 1, ignore_garbage);
    } else {
        assert(s.take(m) =~= s);
    }
}

} // verus!
