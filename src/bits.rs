//! Bit-level facts about the keys: which two-bit group routes a key at a given
//! level, and what agreeing on the bits above a level means.
use vstd::prelude::*;

verus! {

/// Bit `b` of `v` (counting from the least significant bit).
pub open spec fn bit(v: u32, b: nat) -> bool {
    (v >> (b as u32)) & 1u32 == 1u32
}

/// The two-bit group of `v` made of bits `i - 1` and `i - 2`: the slot that
/// routes `v` in a node with `i` bits left to consume.
pub open spec fn digit(v: u32, i: nat) -> u32 {
    (v >> ((i - 2) as u32)) & 3u32
}

/// `v` and `x` agree on every bit at position `i` or above.
pub open spec fn same_above(v: u32, x: u32, i: nat) -> bool {
    i >= 32 || (v >> (i as u32)) == (x >> (i as u32))
}

/// `v` has no set bit at position `w` or above.
pub open spec fn fits(v: u32, w: nat) -> bool {
    w >= 32 || (v >> (w as u32)) == 0
}

pub proof fn lemma_descend(v: u32, x: u32, i: nat)
    requires
        2 <= i <= 32,
        same_above(v, x, i),
        digit(v, i) == digit(x, i),
    ensures
        same_above(v, x, (i - 2) as nat),
{
    let s = i as u32;
    if i >= 32 {
        assert(((v >> 30u32) & 3u32) == ((x >> 30u32) & 3u32) ==> (v >> 30u32) == (x >> 30u32))
            by (bit_vector);
    } else {
        assert(2 <= s < 32 && (v >> s) == (x >> s) && ((v >> (s - 2) as u32) & 3u32) == ((x >> (
        s - 2) as u32) & 3u32) ==> (v >> (s - 2) as u32) == (x >> (s - 2) as u32)) by (bit_vector);
    }
}

/// Agreeing on everything from bit 0 up is equality.
pub proof fn lemma_same_above_zero(v: u32, x: u32)
    requires
        same_above(v, x, 0),
    ensures
        v == x,
{
    assert((v >> 0u32) == (x >> 0u32) ==> v == x) by (bit_vector);
}

/// Keys that agree from bit `b` up and on bit `b - 1` agree from bit `b - 1` up.
pub proof fn lemma_same_above_step(v: u32, x: u32, b: nat)
    requires
        1 <= b <= 32,
        same_above(v, x, b),
        bit(v, (b - 1) as nat) == bit(x, (b - 1) as nat),
    ensures
        same_above(v, x, (b - 1) as nat),
{
    let s = b as u32;
    if b >= 32 {
        assert((((v >> 31u32) & 1u32) == 1u32) == (((x >> 31u32) & 1u32) == 1u32) ==> (v >> 31u32)
            == (x >> 31u32)) by (bit_vector);
    } else {
        assert(1 <= s < 32 && (v >> s) == (x >> s) && ((((v >> (s - 1) as u32) & 1u32) == 1u32) == (
        ((x >> (s - 1) as u32) & 1u32) == 1u32)) ==> (v >> (s - 1) as u32) == (x >> (s - 1) as u32))
            by (bit_vector);
    }
}

/// Two keys that fit in `w` bits agree on all bits from `w` up.
pub proof fn lemma_fits_same_above(v: u32, x: u32, w: nat)
    requires
        fits(v, w),
        fits(x, w),
    ensures
        same_above(v, x, w),
{
}

/// The high and low bit of a key's digit are its bits `i - 1` and `i - 2`.
pub proof fn lemma_digit_bits(v: u32, i: nat)
    requires
        2 <= i <= 32,
    ensures
        bit(v, (i - 1) as nat) <==> digit(v, i) >= 2,
        bit(v, (i - 2) as nat) <==> digit(v, i) % 2 == 1,
        digit(v, i) < 4,
{
    let s = (i - 2) as u32;
    assert(s < 31 ==> (((v >> (s + 1) as u32) & 1u32 == 1u32) <==> ((v >> s) & 3u32) >= 2u32))
        by (bit_vector);
    assert(((v >> s) & 1u32 == 1u32) <==> ((v >> s) & 3u32) % 2u32 == 1u32) by (bit_vector);
    assert(((v >> s) & 3u32) < 4u32) by (bit_vector);
}

} // verus!
