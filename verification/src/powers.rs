//! Powers of two as machine integers.

use vstd::arithmetic::mul::*;
use vstd::arithmetic::power2::*;
use vstd::bits::*;
use vstd::prelude::*;

verus! {

/// `2^k`, where it fits.
pub(crate) fn two_to(k: usize) -> (r: usize)
    requires
        pow2(k as nat) <= usize::MAX,
    ensures
        r == pow2(k as nat),
{
    proof {
        lemma_exponent_fits(k as nat);
        lemma_usize_shl_is_mul(1, k);
    }
    1usize << k
}

/// An exponent whose power fits a machine word is below the word's width.
pub proof fn lemma_exponent_fits(k: nat)
    requires
        pow2(k) <= usize::MAX,
    ensures
        k < usize::BITS,
{
    lemma2_to64();
    lemma2_to64_rest();
    lemma_pow2_adds(32, 32);
    if k >= usize::BITS {
        if k > usize::BITS {
            lemma_pow2_strictly_increases(usize::BITS as nat, k);
        }
    }
}

/// A bit of a machine word, with all the bits below it, fits the word.
pub proof fn lemma_word_bit(k: nat)
    requires
        k < usize::BITS,
    ensures
        2 * pow2(k) - 1 <= usize::MAX,
{
    lemma2_to64();
    lemma2_to64_rest();
    lemma_pow2_adds(32, 32);
    lemma_pow2_unfold(k + 1);
    if k + 1 < usize::BITS {
        lemma_pow2_strictly_increases(k + 1, usize::BITS as nat);
    }
}

/// A power of two with a larger exponent is a multiple.
pub proof fn lemma_pow2_split(a: nat, b: nat)
    requires
        a <= b,
    ensures
        pow2(b) == pow2(a) * pow2((b - a) as nat),
        pow2(a) > 0,
        pow2((b - a) as nat) > 0,
        pow2(a) <= pow2(b),
{
    lemma_pow2_pos(a);
    lemma_pow2_pos((b - a) as nat);
    lemma_pow2_adds(a, (b - a) as nat);
    if a < b {
        lemma_pow2_strictly_increases(a, b);
    }
}

} // verus!
