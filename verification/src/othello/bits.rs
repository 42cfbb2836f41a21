//! Facts about the bits of a sixty-four bit mask.

use vstd::prelude::*;

verus! {

/// Whether bit `index` of `mask` is set.
pub open spec fn bit(mask: u64, index: int) -> bool {
    0 <= index < 64 && (mask >> (index as u64)) & 1 == 1
}

/// The mask with only bit `index` set.
pub open spec fn single(index: int) -> u64 {
    1u64 << (index as u64)
}

proof fn lemma_bitwise_raw(a: u64, b: u64, i: u64)
    by (bit_vector)
    requires
        i < 64,
    ensures
        (((a & b) >> i) & 1 == 1) == (((a >> i) & 1 == 1) && ((b >> i) & 1 == 1)),
        (((a | b) >> i) & 1 == 1) == (((a >> i) & 1 == 1) || ((b >> i) & 1 == 1)),
        (((a ^ b) >> i) & 1 == 1) == (((a >> i) & 1 == 1) != ((b >> i) & 1 == 1)),
        (((!a) >> i) & 1 == 1) == !((a >> i) & 1 == 1),
        !((0u64 >> i) & 1 == 1),
{
}

/// Bit `index` of a mask built with `&`, `|`, `^` or `!`.
pub proof fn lemma_bitwise(a: u64, b: u64, index: int)
    requires
        0 <= index < 64,
    ensures
        bit(a & b, index) == (bit(a, index) && bit(b, index)),
        bit(a | b, index) == (bit(a, index) || bit(b, index)),
        bit(a ^ b, index) == (bit(a, index) != bit(b, index)),
        bit(!a, index) == !bit(a, index),
        !bit(0, index),
{
    lemma_bitwise_raw(a, b, index as u64);
}

proof fn lemma_single_raw(i: u64, j: u64)
    by (bit_vector)
    requires
        i < 64,
        j < 64,
    ensures
        (((1u64 << i) >> j) & 1 == 1) == (i == j),
{
}

/// The mask `single(index)` has bit `index` set and no other.
pub proof fn lemma_single(index: int, other: int)
    requires
        0 <= index < 64,
        0 <= other < 64,
    ensures
        bit(single(index), other) == (index == other),
{
    lemma_single_raw(index as u64, other as u64);
}

/// A mask that has a set bit is not zero.
pub proof fn lemma_bit_nonzero(mask: u64, index: int)
    requires
        bit(mask, index),
    ensures
        mask != 0,
{
    let i: u64 = index as u64;
    assert(i < 64 && (mask >> i) & 1 == 1 ==> mask != 0) by (bit_vector);
}

/// A mask that is not zero has a set bit; the lemma returns the lowest.
pub proof fn lemma_nonzero_bit(mask: u64) -> (index: int)
    requires
        mask != 0,
    ensures
        bit(mask, index),
{
    vstd::std_specs::bits::axiom_u64_trailing_zeros(mask);
    let index: int = vstd::std_specs::bits::u64_trailing_zeros(mask) as int;
    index
}

/// A mask without a set bit is zero.
pub proof fn lemma_no_bit_zero(mask: u64)
    requires
        forall|index: int| 0 <= index < 64 ==> !bit(mask, index),
    ensures
        mask == 0,
{
    if mask != 0 {
        let index = lemma_nonzero_bit(mask);
        assert(bit(mask, index));
    }
}

} // verus!
