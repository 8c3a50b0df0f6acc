use vstd::prelude::*;

verus! {

/// The 32-bit value of four bytes, least significant byte first.
pub open spec fn word_of(b0: u8, b1: u8, b2: u8, b3: u8) -> int {
    b0 as int + 256 * (b1 as int) + 65536 * (b2 as int) + 16777216 * (b3 as int)
}

/// The 32-bit value of the four bytes of `s` that start at `i`.
pub open spec fn word_at(s: Seq<u8>, i: int) -> int
    recommends
        0 <= i,
        i + 4 <= s.len(),
{
    word_of(s[i], s[i + 1], s[i + 2], s[i + 3])
}

/// Four bytes always make a value that fits in 32 bits.
pub proof fn lemma_word_bounds(s: Seq<u8>, i: int)
    requires
        0 <= i,
        i + 4 <= s.len(),
    ensures
        0 <= word_at(s, i) <= u32::MAX,
{
}

/// Assembles a 32-bit draw from four entropy bytes, least significant first.
pub fn get_random_u32(bytes: [u8; 4]) -> (r: u32)
    ensures
        r as int == word_of(bytes[0], bytes[1], bytes[2], bytes[3]),
{
    let b0 = bytes[0] as u32;
    let b1 = bytes[1] as u32;
    let b2 = bytes[2] as u32;
    let b3 = bytes[3] as u32;
    b0 + 256 * b1 + 65536 * b2 + 16777216 * b3
}

} // verus!
