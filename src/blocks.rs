use vstd::prelude::*;

verus! {

/// First code point of the block that marks a single trailing byte.
pub const PADDING_BLOCK_START: u32 = 0x1500;

/// The block table: the start of the block that stands for second byte `b`.
///
/// The 256 blocks are laid out as contiguous runs of 256-code-point blocks
/// inside CJK, Yi, Vai, Linear A, Cuneiform, Egyptian, Anatolian and Bamum.
pub open spec fn spec_block_start(b: u8) -> u32 {
    let i = b as int;
    (if i < 25 {
        0x3400 + i * 0x100
    } else if i < 106 {
        0x4E00 + (i - 25) * 0x100
    } else if i < 109 {
        0xA100 + (i - 106) * 0x100
    } else if i < 110 {
        0xA500
    } else if i < 111 {
        0x10600
    } else if i < 114 {
        0x12000 + (i - 111) * 0x100
    } else if i < 118 {
        0x13000 + (i - 114) * 0x100
    } else if i < 120 {
        0x14400 + (i - 118) * 0x100
    } else if i < 122 {
        0x16800 + (i - 120) * 0x100
    } else {
        0x20000 + (i - 122) * 0x100
    }) as u32
}

/// The start of the block that stands for second byte `b`.
#[verifier::when_used_as_spec(spec_block_start)]
pub fn block_start(b: u8) -> (r: u32)
    ensures
        r == spec_block_start(b),
{
    let i = b as u32;
    if i < 25 {
        0x3400 + i * 0x100
    } else if i < 106 {
        0x4E00 + (i - 25) * 0x100
    } else if i < 109 {
        0xA100 + (i - 106) * 0x100
    } else if i < 110 {
        0xA500
    } else if i < 111 {
        0x10600
    } else if i < 114 {
        0x12000 + (i - 111) * 0x100
    } else if i < 118 {
        0x13000 + (i - 114) * 0x100
    } else if i < 120 {
        0x14400 + (i - 118) * 0x100
    } else if i < 122 {
        0x16800 + (i - 120) * 0x100
    } else {
        0x20000 + (i - 122) * 0x100
    }
}

/// The second byte whose block starts at `start`, if there is one.
pub open spec fn spec_index_of(start: u32) -> Option<u8> {
    if exists|b: u8| block_start(b) == start {
        Some(choose|b: u8| block_start(b) == start)
    } else {
        None
    }
}

/// No two second bytes share a block.
pub proof fn lemma_block_start_injective(a: u8, b: u8)
    ensures
        block_start(a) == block_start(b) ==> a == b,
{
}

/// Every block lies on a 256-code-point boundary, apart from the padding
/// block, and holds only Unicode scalar values.
pub proof fn lemma_block_start_shape(b: u8)
    ensures
        block_start(b) % 0x100 == 0,
        block_start(b) != PADDING_BLOCK_START,
        0x3400 <= block_start(b) < 0xD800 || 0x10000 <= block_start(b) <= 0x28500,
        block_start(b) + 0xFF < 0xD800 || (0x10000 <= block_start(b) && block_start(b) + 0xFF
            <= 0x10FFFF),
{
}

/// The reverse index: which second byte, if any, has its block starting at `start`.
pub fn index_of(start: u32) -> (r: Option<u8>)
    ensures
        r == spec_index_of(start),
{
    proof {
        assert forall|a: u8, b: u8| block_start(a) == block_start(b) implies a == b by {
            lemma_block_start_injective(a, b);
        }
    }
    let r = index_of_run(start);
    proof {
        if let Some(b) = r {
            assert(block_start(b) == start);
        }
    }
    r
}

/// Finds the run of blocks that holds `start`, and its place in that run.
fn index_of_run(start: u32) -> (r: Option<u8>)
    ensures
        r matches Some(b) ==> block_start(b) == start,
        r is None ==> forall|b: u8| block_start(b) != start,
{
    if start % 0x100 != 0 {
        return None;
    }
    let k = start / 0x100;
    if 0x34 <= k && k <= 0x4C {
        Some((k - 0x34) as u8)
    } else if 0x4E <= k && k <= 0x9E {
        Some((k - 0x4E + 25) as u8)
    } else if 0xA1 <= k && k <= 0xA3 {
        Some((k - 0xA1 + 106) as u8)
    } else if k == 0xA5 {
        Some(109)
    } else if k == 0x106 {
        Some(110)
    } else if 0x120 <= k && k <= 0x122 {
        Some((k - 0x120 + 111) as u8)
    } else if 0x130 <= k && k <= 0x133 {
        Some((k - 0x130 + 114) as u8)
    } else if 0x144 <= k && k <= 0x145 {
        Some((k - 0x144 + 118) as u8)
    } else if 0x168 <= k && k <= 0x169 {
        Some((k - 0x168 + 120) as u8)
    } else if 0x200 <= k && k <= 0x285 {
        Some((k - 0x200 + 122) as u8)
    } else {
        None
    }
}

} // verus!
