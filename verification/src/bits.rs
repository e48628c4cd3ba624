//! Bit-level access to the packed mask words.
//!
//! A mask over `n` elements is stored as `ceil(n / 32)` little-endian 32-bit
//! words; bit `k` of word `w` is the bit of element `32 * w + k`.

use vstd::prelude::*;

verus! {

/// Bit `i` of a packed word sequence: bit `i % 32` of word `i / 32`.
pub open spec fn bit_of(words: Seq<u32>, i: int) -> bool
    recommends
        0 <= i < 32 * words.len(),
{
    (words[i / 32] >> ((i % 32) as u32)) & 1u32 == 1u32
}

/// All bits of a packed word sequence, element bits and padding bits alike.
pub open spec fn bits_of(words: Seq<u32>) -> Seq<bool> {
    Seq::new(32 * words.len(), |i: int| bit_of(words, i))
}

/// A sequence of `len` clear bits.
pub open spec fn zero_bits(len: nat) -> Seq<bool> {
    Seq::new(len, |i: int| false)
}

/// A word index stays in range when the bit index does.
pub proof fn lemma_bit_word_index(i: int, len: int)
    requires
        0 <= i < 32 * len,
    ensures
        0 <= i / 32 < len,
        0 <= i % 32 < 32,
{
    vstd::arithmetic::div_mod::lemma_fundamental_div_mod(i, 32);
}

/// Distinct bit indices of the same word have distinct offsets.
proof fn lemma_bit_distinct(i: int, j: int)
    requires
        0 <= i,
        0 <= j,
        i != j,
        i / 32 == j / 32,
    ensures
        i % 32 != j % 32,
{
    vstd::arithmetic::div_mod::lemma_fundamental_div_mod(i, 32);
    vstd::arithmetic::div_mod::lemma_fundamental_div_mod(j, 32);
}

proof fn lemma_or_mask_hit(w: u32, k: u32)
    by (bit_vector)
    requires
        k < 32,
    ensures
        ((w | (1u32 << k)) >> k) & 1u32 == 1u32,
        ((w & !(1u32 << k)) >> k) & 1u32 == 0u32,
{
}

proof fn lemma_or_mask_miss(w: u32, k: u32, j: u32)
    by (bit_vector)
    requires
        k < 32,
        j < 32,
        j != k,
    ensures
        ((w | (1u32 << k)) >> j) & 1u32 == (w >> j) & 1u32,
        ((w & !(1u32 << k)) >> j) & 1u32 == (w >> j) & 1u32,
{
}

/// Every bit of a zero word is clear.
pub proof fn lemma_zero_word_bit(k: u32)
    by (bit_vector)
    requires
        k < 32,
    ensures
        (0u32 >> k) & 1u32 == 0u32,
{
}

/// Read one bit of a packed word vector.
pub fn get_bit(words: &Vec<u32>, i: usize) -> (b: bool)
    requires
        (i as int) < 32 * words@.len(),
    ensures
        b == bit_of(words@, i as int),
{
    proof {
        lemma_bit_word_index(i as int, words@.len() as int);
    }
    ((words[i / 32] >> ((i % 32) as u32)) & 1u32) == 1u32
}

/// Write one bit of a packed word vector, leaving every other bit as it was.
pub fn set_bit(words: &mut Vec<u32>, i: usize, b: bool)
    requires
        (i as int) < 32 * old(words)@.len(),
    ensures
        final(words)@.len() == old(words)@.len(),
        bit_of(final(words)@, i as int) == b,
        forall|j: int|
            0 <= j < 32 * old(words)@.len() && j != i ==> bit_of(final(words)@, j) == bit_of(
                old(words)@,
                j,
            ),
{
    proof {
        lemma_bit_word_index(i as int, words@.len() as int);
    }
    let k: u32 = (i % 32) as u32;
    let w: u32 = words[i / 32];
    let nw: u32 = if b {
        w | (1u32 << k)
    } else {
        w & !(1u32 << k)
    };
    let wi: usize = i / 32;
    words.set(wi, nw);
    proof {
        lemma_or_mask_hit(w, k);
        assert forall|j: int|
            0 <= j < 32 * old(words)@.len() && j != i implies bit_of(words@, j) == bit_of(
            old(words)@,
            j,
        ) by {
            lemma_bit_word_index(j, old(words)@.len() as int);
            if j / 32 == i / 32 {
                lemma_bit_distinct(i as int, j);
                lemma_or_mask_miss(w, k, (j % 32) as u32);
            }
        }
    }
}

} // verus!
