//! A bit-level codec for the Packed Encoding Rules (PER), in the aligned and
//! the unaligned (UPER) variant: length determinants with fragmentation,
//! constrained and unconstrained integer packing, presence bitmaps and
//! extension additions for constructed types, CHOICE discriminants, and
//! known-multiplier character strings remapped against a permitted alphabet.

use vstd::prelude::*;

pub mod arith;
pub mod bits;
pub mod constraints;
pub mod de;
pub mod enc;
pub mod error;
pub mod laws;
pub mod maps;
pub mod tag;
pub mod strings;
pub mod variants;
pub mod wire;

verus! {

pub const SIXTEEN_K: u16 = 16384;

pub const THIRTY_TWO_K: u16 = 32768;

pub const FOURTY_EIGHT_K: u16 = 49152;

pub const SIXTY_FOUR_K: u32 = 65536;

/// The number of bits needed for a non-negative binary integer field covering
/// `x` distinct values: the least `w` with `2^w >= x`.
pub fn log2(x: i128) -> (r: u32)
    requires
        x >= 1,
    ensures
        r == arith::bits_for(x - 1),
{
    proof {
        lemma_i128_fits_127_bits(x - 1);
    }
    let mut y: i128 = x - 1;
    let mut r: u32 = 0;
    while y > 0
        invariant
            y >= 0,
            arith::bits_for(y as int) + r == arith::bits_for(x - 1),
            arith::bits_for(x - 1) <= 127,
            r <= 127,
        decreases y,
    {
        proof {
            vstd::arithmetic::div_mod::lemma_div_decreases(y as int, 2);
            vstd::arithmetic::div_mod::lemma_div_is_ordered(0, y as int, 2);
        }
        y = y / 2;
        r = r + 1;
    }
    r
}

/// Any non-negative `i128` value has at most 127 binary digits.
pub proof fn lemma_i128_fits_127_bits(x: int)
    requires
        x <= i128::MAX,
    ensures
        arith::bits_for(x) <= 127,
{
    vstd::arithmetic::power2::lemma_pow2_adds(64, 63);
    vstd::arithmetic::power2::lemma2_to64();
    vstd::arithmetic::power2::lemma2_to64_rest();
    arith::lemma_bits_for_le(x, 127);
}

} // verus!
