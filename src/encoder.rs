use vstd::prelude::*;
use vstd::string::*;

use crate::blocks::{block_start, lemma_block_start_shape, PADDING_BLOCK_START};

verus! {

/// Line wrapping of encoded text.
#[derive(Clone, Copy, Debug, PartialEq, Eq, Hash)]
pub enum WrapOptions<'a> {
    /// No line breaks.
    NoWrap,
    /// A `'\n'` after every so many code points; the count must be above zero.
    WrapAt(usize),
    /// The given line ending after every so many code points; the count must
    /// be above zero.
    WrapAtWith(usize, &'a str),
}

impl<'a> From<Option<usize>> for WrapOptions<'a> {
    /// A wrap width wraps with `'\n'`; none means no wrapping.
    fn from(from: Option<usize>) -> (r: Self) {
        match from {
            Some(columns) => WrapOptions::WrapAt(columns),
            None => WrapOptions::NoWrap,
        }
    }
}

impl<'a> vstd::std_specs::convert::FromSpecImpl<Option<usize>> for WrapOptions<'a> {
    open spec fn obeys_from_spec() -> bool {
        true
    }

    open spec fn from_spec(v: Option<usize>) -> Self {
        match v {
            Some(columns) => WrapOptions::WrapAt(columns),
            None => WrapOptions::NoWrap,
        }
    }
}

impl<'a> From<usize> for WrapOptions<'a> {
    /// Wraps with `'\n'` at the given width.
    fn from(from: usize) -> (r: Self) {
        WrapOptions::WrapAt(from)
    }
}

impl<'a> vstd::std_specs::convert::FromSpecImpl<usize> for WrapOptions<'a> {
    open spec fn obeys_from_spec() -> bool {
        true
    }

    open spec fn from_spec(v: usize) -> Self {
        WrapOptions::WrapAt(v)
    }
}

/// The wrap options are usable: a wrap width is above zero.
pub open spec fn wrap_ok(wrap: WrapOptions) -> bool {
    match wrap {
        WrapOptions::NoWrap => true,
        WrapOptions::WrapAt(columns) => columns > 0,
        WrapOptions::WrapAtWith(columns, _) => columns > 0,
    }
}

/// The code point that stands for chunk `i` of `b`: bytes `2i` and `2i + 1`,
/// or the final byte alone.
pub open spec fn chunk_code_point(b: Seq<u8>, i: int) -> u32 {
    if 2 * i + 1 < b.len() {
        (block_start(b[2 * i + 1]) + b[2 * i]) as u32
    } else {
        (PADDING_BLOCK_START + b[2 * i]) as u32
    }
}

/// The code points that stand for `b`, one for each chunk of two bytes.
pub open spec fn encoded(b: Seq<u8>) -> Seq<char> {
    Seq::new(((b.len() + 1) / 2) as nat, |i: int| chunk_code_point(b, i) as char)
}

/// What goes before code point `k` of the text: a line ending when a line of
/// the wrap width has just been filled.
pub open spec fn line_break(wrap: WrapOptions, k: int) -> Seq<char> {
    match wrap {
        WrapOptions::NoWrap => Seq::empty(),
        WrapOptions::WrapAt(columns) => if k > 0 && k % (columns as int) == 0 {
            seq!['\n']
        } else {
            Seq::empty()
        },
        WrapOptions::WrapAtWith(columns, eol) => if k > 0 && k % (columns as int) == 0 {
            eol@
        } else {
            Seq::empty()
        },
    }
}

/// The code points `cps` laid out in lines as `wrap` says.
pub open spec fn wrap_text(cps: Seq<char>, wrap: WrapOptions) -> Seq<char>
    decreases cps.len(),
{
    if cps.len() == 0 {
        Seq::empty()
    } else {
        let k = cps.len() - 1;
        wrap_text(cps.drop_last(), wrap) + line_break(wrap, k) + seq![cps[k]]
    }
}

/// The text that encodes `b`.
pub open spec fn encoded_text(b: Seq<u8>, wrap: WrapOptions) -> Seq<char> {
    wrap_text(encoded(b), wrap)
}

/// Relies on char::from_u32: the character with value `v`, for a Unicode
/// scalar value, and `None` for any other value.
#[verifier::external_body]
fn char_from_u32(v: u32) -> (r: Option<char>)
    ensures
        r is Some <==> (v < 0xD800 || (0xE000 <= v && v <= 0x10FFFF)),
        r matches Some(c) ==> c == v as char,
{
    char::from_u32(v)
}

/// Relies on String::push: appends the character `c`.
#[verifier::external_body]
fn push_char(s: &mut String, c: char)
    ensures
        final(s)@ == old(s)@.push(c),
{
    s.push(c)
}

/// Encodes `input`, appending the text to `buf`.
pub fn encode_buf(input: &[u8], buf: &mut String, wrap: WrapOptions)
    requires
        wrap_ok(wrap),
    ensures
        final(buf)@ == old(buf)@ + encoded_text(input@, wrap),
{
    let n = input.len();
    let chunks = n / 2 + n % 2;
    let ghost cps = encoded(input@);
    let mut count: usize = 0;
    while count < chunks
        invariant
            n == input@.len(),
            chunks == cps.len(),
            cps == encoded(input@),
            count <= chunks,
            wrap_ok(wrap),
            buf@ == old(buf)@ + wrap_text(cps.take(count as int), wrap),
        decreases chunks - count,
    {
        match wrap {
            WrapOptions::NoWrap => {},
            WrapOptions::WrapAt(columns) => {
                if count % columns == 0 && count != 0 {
                    push_char(buf, '\n');
                }
            },
            WrapOptions::WrapAtWith(columns, eol) => {
                if count % columns == 0 && count != 0 {
                    buf.append(eol);
                }
            },
        }
        let byte0 = input[2 * count];
        let block = if 2 * count + 1 < n {
            let byte1 = input[2 * count + 1];
            proof {
                lemma_block_start_shape(byte1);
            }
            block_start(byte1)
        } else {
            PADDING_BLOCK_START
        };
        let code_point = block + byte0 as u32;
        let c = char_from_u32(code_point).unwrap();
        push_char(buf, c);
        proof {
            let next = cps.take(count + 1);
            assert(next.drop_last() =~= cps.take(count as int));
            assert(buf@ =~= old(buf)@ + wrap_text(next, wrap));
        }
        count = count + 1;
    }
    assert(cps.take(count as int) =~= cps);
}

/// Without wrapping, the text is the code points alone.
pub proof fn lemma_unwrapped(cps: Seq<char>)
    ensures
        wrap_text(cps, WrapOptions::NoWrap) == cps,
    decreases cps.len(),
{
    if cps.len() > 0 {
        lemma_unwrapped(cps.drop_last());
        assert(cps.drop_last().push(cps.last()) =~= cps);
        assert(wrap_text(cps, WrapOptions::NoWrap) =~= cps);
    }
}

/// Encodes `input` as text. Unwrapped, the text has one code point for each
/// two bytes, and one for a final odd byte.
pub fn encode(input: &[u8], wrap: WrapOptions) -> (r: String)
    requires
        wrap_ok(wrap),
    ensures
        r@ == encoded_text(input@, wrap),
        wrap is NoWrap ==> r@ == encoded(input@),
        wrap is NoWrap ==> r@.len() == (input@.len() + 1) / 2,
{
    let mut out = String::new();
    encode_buf(input, &mut out, wrap);
    proof {
        lemma_unwrapped(encoded(input@));
    }
    out
}

} // verus!
