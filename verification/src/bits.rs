//! Single bits and 5-bit fields of a 128-bit word.

use vstd::prelude::*;

verus! {

/// Bit `i` of `x` is set.
pub open spec fn bit(x: u128, i: usize) -> bool {
    (x >> i) & 1 == 1
}

/// The 5-bit field of `x` that starts at bit `offset`.
pub open spec fn field(x: u128, offset: usize) -> u128 {
    (x >> offset) & 0x1f
}

/// The word whose set bits are the 5-bit field at `offset`.
pub open spec fn field_mask(offset: usize) -> u128 {
    0x1fu128 << offset
}

/// A bit of `a | b` is set where it is set in `a` or in `b`.
pub proof fn lemma_bit_or(a: u128, b: u128, i: usize)
    by (bit_vector)
    ensures
        bit(a | b, i) == (bit(a, i) || bit(b, i)),
{
}

/// A bit of `a & b` is set where it is set in `a` and in `b`.
pub proof fn lemma_bit_and(a: u128, b: u128, i: usize)
    by (bit_vector)
    ensures
        bit(a & b, i) == (bit(a, i) && bit(b, i)),
{
}

/// A bit of `!a` is set where it is clear in `a`.
pub proof fn lemma_bit_not(a: u128, i: usize)
    by (bit_vector)
    requires
        i < 128,
    ensures
        bit(!a, i) == !bit(a, i),
{
}

/// Zero has no bit set.
pub proof fn lemma_bit_zero(i: usize)
    by (bit_vector)
    ensures
        !bit(0, i),
{
}

/// Bit `i` of `a << d` is bit `i - d` of `a`; the lowest `d` bits are clear.
pub proof fn lemma_bit_shl(a: u128, d: usize, i: usize)
    by (bit_vector)
    requires
        i < 128,
        d < 128,
    ensures
        bit(a << d, i) == (i >= d && bit(a, (i - d) as usize)),
{
}

/// Bit `i` of `a >> d` is bit `i + d` of `a`; the highest `d` bits are clear.
pub proof fn lemma_bit_shr(a: u128, d: usize, i: usize)
    by (bit_vector)
    requires
        i < 128,
        d < 128,
    ensures
        bit(a >> d, i) == (i + d < 128 && bit(a, (i + d) as usize)),
{
}

/// The set bits of a field mask are the five bits from `offset` up, as far as
/// the word reaches.
pub proof fn lemma_bit_field_mask(offset: usize, i: usize)
    by (bit_vector)
    requires
        offset < 128,
        i < 128,
    ensures
        bit(field_mask(offset), i) == (offset <= i && i < offset + 5),
{
}

/// Two fields whose five bits agree one by one are equal.
pub proof fn lemma_field_by_bits(a: u128, p: usize, b: u128, q: usize)
    by (bit_vector)
    requires
        p <= 123,
        q <= 123,
        bit(a, p) == bit(b, q),
        bit(a, (p + 1) as usize) == bit(b, (q + 1) as usize),
        bit(a, (p + 2) as usize) == bit(b, (q + 2) as usize),
        bit(a, (p + 3) as usize) == bit(b, (q + 3) as usize),
        bit(a, (p + 4) as usize) == bit(b, (q + 4) as usize),
    ensures
        field(a, p) == field(b, q),
{
}

} // verus!
