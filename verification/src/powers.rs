//! Powers of two and bit lengths of machine integers.

use vstd::arithmetic::power2::{
    lemma2_to64, lemma2_to64_rest, lemma_pow2_adds, lemma_pow2_strictly_increases,
    lemma_pow2_unfold, pow2,
};
use vstd::prelude::*;

verus! {

/// Two to the power of `exponent`.
pub(crate) fn power_of_two(exponent: u32) -> (power: u128)
    requires
        exponent <= 127,
    ensures
        power == pow2(exponent as nat),
{
    let mut power: u128 = 1;
    let mut done: u32 = 0;
    proof {
        lemma2_to64();
        lemma_pow2_adds(64, 64);
    }
    while done < exponent
        invariant
            done <= exponent <= 127,
            power == pow2(done as nat),
            pow2(128) == 0x1_0000_0000_0000_0000_0000_0000_0000_0000,
        decreases exponent - done,
    {
        proof {
            lemma_pow2_unfold((done + 1) as nat);
            lemma_pow2_strictly_increases((done + 1) as nat, 128);
        }
        power = power * 2;
        done += 1;
    }
    power
}

/// The number of bits that a positive number takes.
pub(crate) fn bit_length(number: u128) -> (length: u32)
    requires
        0 < number < 0x8000_0000_0000_0000_0000_0000_0000_0000,
    ensures
        1 <= length <= 127,
        pow2((length - 1) as nat) <= number < pow2(length as nat),
{
    let mut length: u32 = 0;
    let mut bound: u128 = 1;
    proof {
        lemma2_to64();
        lemma_pow2_adds(64, 63);
        lemma2_to64_rest();
    }
    while bound <= number
        invariant
            length <= 127,
            bound >= 1,
            bound == pow2(length as nat),
            length > 0 ==> pow2((length - 1) as nat) <= number,
            number < 0x8000_0000_0000_0000_0000_0000_0000_0000,
            pow2(127) == 0x8000_0000_0000_0000_0000_0000_0000_0000,
        decreases 127 - length,
    {
        proof {
            assert(length < 127);
            lemma_pow2_unfold((length + 1) as nat);
            if length + 1 < 127 {
                lemma_pow2_strictly_increases((length + 1) as nat, 127);
            }
        }
        bound = bound * 2;
        length += 1;
    }
    length
}

} // verus!
