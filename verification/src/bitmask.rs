//! Bit patterns of one cell. A cell of `positions` pixels has a pattern of
//! that many bits, held in the least significant bits of a 128-bit word.
//! Positions are numbered from the most significant of those bits, so that
//! position `x + y * width` describes the pixel at `(x, y)`.

use vstd::prelude::*;

verus! {

/// Whether the bit of significance `place` is set in `bitmap`.
pub open spec fn bit(bitmap: u128, place: u32) -> bool {
    place < 128 && bitmap & (1u128 << (place as u128)) != 0
}

/// Whether position `index` of a pattern of `positions` positions is ink.
/// Positions past the last one are never ink.
pub open spec fn bit_at(bitmap: u128, positions: u32, index: u32) -> bool {
    index < positions && bit(bitmap, (positions - 1 - index) as u32)
}

/// `bitmap` with the bit of significance `place` set.
pub open spec fn with_place(bitmap: u128, place: u32) -> u128 {
    bitmap | (1u128 << (place as u128))
}

/// The pattern `bitmap` of `positions` positions with position `index`
/// turned to ink.
pub open spec fn with_bit(bitmap: u128, positions: u32, index: u32) -> u128 {
    with_place(bitmap, (positions - 1 - index) as u32)
}

/// The word whose `n` least significant bits are set, and no other.
pub open spec fn low_bits(n: u32) -> u128 {
    if n >= 128 {
        0xffff_ffff_ffff_ffff_ffff_ffff_ffff_ffffu128
    } else {
        ((1u128 << (n as u128)) - 1) as u128
    }
}

/// The part of `bitmap` that a pattern of `positions` positions holds.
pub open spec fn in_cell(bitmap: u128, positions: u32) -> u128 {
    bitmap & low_bits(positions)
}

/// The complement of a pattern of `positions` positions: ink exactly at the
/// positions where `bitmap` has none.
pub open spec fn complement(bitmap: u128, positions: u32) -> u128 {
    !bitmap & low_bits(positions)
}

/// Setting one bit leaves every other bit as it was.
pub proof fn lemma_with_place(bitmap: u128, place: u32, other: u32)
    requires
        place < 128,
    ensures
        bit(with_place(bitmap, place), other) == (other == place || bit(bitmap, other)),
{
    assert(bit(with_place(bitmap, place), other) == (other == place || bit(bitmap, other)))
        by (bit_vector)
        requires
            place < 128,
    ;
}

/// The bits of the words that the operations on patterns give.
pub proof fn lemma_bits(a: u128, b: u128, n: u32, place: u32)
    requires
        place < 128,
    ensures
        !bit(0, place),
        bit(a ^ b, place) == (bit(a, place) != bit(b, place)),
        bit(a & b, place) == (bit(a, place) && bit(b, place)),
        bit(!a, place) == !bit(a, place),
        bit(low_bits(n), place) == (place < n),
        bit(in_cell(a, n), place) == (place < n && bit(a, place)),
        bit(complement(a, n), place) == (place < n && !bit(a, place)),
{
    assert(!bit(0u128, place)) by (bit_vector);
    assert(bit(a ^ b, place) == (bit(a, place) != bit(b, place))) by (bit_vector);
    assert(bit(a & b, place) == (bit(a, place) && bit(b, place))) by (bit_vector);
    assert(bit(!a, place) == !bit(a, place)) by (bit_vector)
        requires
            place < 128,
    ;
    assert(bit(low_bits(n), place) == (place < n)) by (bit_vector)
        requires
            place < 128,
    ;
    let field = low_bits(n);
    assert(bit(a & field, place) == (bit(a, place) && bit(field, place))) by (bit_vector);
    assert(bit(!a & field, place) == (!bit(a, place) && bit(field, place))) by (bit_vector)
        requires
            place < 128,
    ;
}

/// Number of set bits among the `n` least significant bits of `bitmap`.
pub open spec fn ones_below(bitmap: u128, n: nat) -> nat
    decreases n,
{
    if n == 0 {
        0
    } else {
        ones_below(bitmap, (n - 1) as nat) + if bit(bitmap, (n - 1) as u32) {
            1nat
        } else {
            0nat
        }
    }
}

/// Number of bits among the `n` least significant in which `a` and `b`
/// differ.
pub open spec fn differing_below(a: u128, b: u128, n: nat) -> nat
    decreases n,
{
    if n == 0 {
        0
    } else {
        differing_below(a, b, (n - 1) as nat) + if bit(a, (n - 1) as u32) != bit(
            b,
            (n - 1) as u32,
        ) {
            1nat
        } else {
            0nat
        }
    }
}

/// Hamming distance of two patterns of `positions` positions: the number of
/// positions at which one is ink and the other is not.
pub open spec fn hamming(a: u128, b: u128, positions: u32) -> nat {
    differing_below(a, b, positions as nat)
}

/// `u128::count_ones` of std: the number of ones in the binary representation
/// of the argument.
pub assume_specification[ u128::count_ones ](i: u128) -> (r: u32)
    ensures
        r == ones_below(i, 128),
;

/// Turning one position to ink leaves every other position as it was.
pub proof fn lemma_with_bit(bitmap: u128, positions: u32, index: u32, other: u32)
    requires
        index < positions <= 128,
    ensures
        bit_at(with_bit(bitmap, positions, index), positions, other) == (other == index || bit_at(
            bitmap,
            positions,
            other,
        )),
        in_cell(bitmap, positions) == bitmap ==> in_cell(
            with_bit(bitmap, positions, index),
            positions,
        ) == with_bit(bitmap, positions, index),
{
    let place = (positions - 1 - index) as u32;
    if other < positions {
        lemma_with_place(bitmap, place, (positions - 1 - other) as u32);
    }
    let field = low_bits(positions);
    assert(bitmap & field == bitmap ==> with_place(bitmap, place) & field == with_place(
        bitmap,
        place,
    )) by (bit_vector)
        requires
            place < positions <= 128,
            field == low_bits(positions),
    ;
}

/// The set bits of `(a ^ b)` within a cell are the positions at which `a` and
/// `b` differ.
proof fn lemma_ones_xor(a: u128, b: u128, positions: u32, n: nat)
    requires
        n <= 128,
    ensures
        ones_below(in_cell(a ^ b, positions), n) == differing_below(
            a,
            b,
            if n <= positions {
                n
            } else {
                positions as nat
            },
        ),
    decreases n,
{
    if n > 0 {
        lemma_ones_xor(a, b, positions, (n - 1) as nat);
        lemma_bits(a, b, positions, (n - 1) as u32);
        lemma_bits(a ^ b, b, positions, (n - 1) as u32);
    }
}

/// No more positions differ than there are.
pub proof fn lemma_differing_bound(a: u128, b: u128, n: nat)
    ensures
        differing_below(a, b, n) <= n,
    decreases n,
{
    if n > 0 {
        lemma_differing_bound(a, b, (n - 1) as nat);
    }
}

proof fn lemma_differing_complement(a: u128, b: u128, positions: u32, n: nat)
    requires
        n <= positions,
        n <= 128,
    ensures
        differing_below(a, complement(b, positions), n) + differing_below(a, b, n) == n,
    decreases n,
{
    if n > 0 {
        lemma_differing_complement(a, b, positions, (n - 1) as nat);
        lemma_bits(b, b, positions, (n - 1) as u32);
    }
}

/// Words that agree on their `n` least significant bits differ in none of
/// them, and conversely.
proof fn lemma_differing_zero(a: u128, b: u128, n: nat)
    requires
        n <= 128,
    ensures
        differing_below(a, b, n) == 0 <==> in_cell(a, n as u32) == in_cell(b, n as u32),
    decreases n,
{
    if n == 0 {
        assert(a & low_bits(0) == b & low_bits(0)) by (bit_vector);
    } else {
        lemma_differing_zero(a, b, (n - 1) as nat);
        let place = (n - 1) as u32;
        let count = n as u32;
        let below = low_bits(place);
        let field = low_bits(count);
        assert((a & field == b & field) <==> (a & below == b & below && bit(a, place) == bit(
            b,
            place,
        ))) by (bit_vector)
            requires
                place < 128,
                count == place + 1,
                below == low_bits(place),
                field == low_bits(count),
        ;
    }
}

/// The distance is zero exactly between patterns that hold the same in the
/// cell.
pub proof fn lemma_hamming_zero(a: u128, b: u128, positions: u32)
    requires
        positions <= 128,
    ensures
        hamming(a, b, positions) == 0 <==> in_cell(a, positions) == in_cell(b, positions),
{
    lemma_differing_zero(a, b, positions as nat);
}

/// The distances to a pattern and to its complement add up to the number of
/// positions.
pub proof fn lemma_hamming_complement(a: u128, b: u128, positions: u32)
    requires
        positions <= 128,
    ensures
        hamming(a, complement(b, positions), positions) + hamming(a, b, positions) == positions,
        hamming(a, b, positions) <= positions,
{
    lemma_differing_complement(a, b, positions, positions as nat);
}

/// The complement of the complement is the pattern, as far as the cell holds
/// it; neither has a bit outside the cell.
pub proof fn lemma_complement_twice(bitmap: u128, positions: u32)
    ensures
        complement(complement(bitmap, positions), positions) == in_cell(bitmap, positions),
        in_cell(complement(bitmap, positions), positions) == complement(bitmap, positions),
        in_cell(in_cell(bitmap, positions), positions) == in_cell(bitmap, positions),
{
    let field = low_bits(positions);
    assert(!(!bitmap & field) & field == bitmap & field) by (bit_vector);
    assert((!bitmap & field) & field == !bitmap & field) by (bit_vector);
    assert((bitmap & field) & field == bitmap & field) by (bit_vector);
}

/// Only what the cell holds of two patterns counts for their distance.
pub proof fn lemma_hamming_in_cell(a: u128, b: u128, positions: u32)
    requires
        positions <= 128,
    ensures
        hamming(in_cell(a, positions), b, positions) == hamming(a, b, positions),
        hamming(a, in_cell(b, positions), positions) == hamming(a, b, positions),
{
    lemma_differing_in_cell(a, b, positions, positions as nat);
}

proof fn lemma_differing_in_cell(a: u128, b: u128, positions: u32, n: nat)
    requires
        n <= positions,
        n <= 128,
    ensures
        differing_below(in_cell(a, positions), b, n) == differing_below(a, b, n),
        differing_below(a, in_cell(b, positions), n) == differing_below(a, b, n),
    decreases n,
{
    if n > 0 {
        lemma_differing_in_cell(a, b, positions, (n - 1) as nat);
        lemma_bits(a, b, positions, (n - 1) as u32);
        lemma_bits(b, a, positions, (n - 1) as u32);
    }
}

/// The word whose `positions` least significant bits are set.
pub fn cell_bits(positions: u32) -> (field: u128)
    ensures
        field == low_bits(positions),
{
    if positions >= 128 {
        0xffff_ffff_ffff_ffff_ffff_ffff_ffff_ffffu128
    } else {
        assert((1u128 << (positions as u128)) >= 1) by (bit_vector)
            requires
                positions < 128,
        ;
        (1u128 << positions) - 1
    }
}

/// The complement of a pattern of `positions` positions.
pub fn invert(bitmap: u128, positions: u32) -> (inverted: u128)
    ensures
        inverted == complement(bitmap, positions),
{
    !bitmap & cell_bits(positions)
}

/// Reads position `index` of a pattern of `positions` positions.
pub fn get_bit_at(bitmap: u128, positions: u32, index: u32) -> (ink: bool)
    requires
        index < positions <= 128,
    ensures
        ink == bit_at(bitmap, positions, index),
{
    (bitmap & (1u128 << (positions - 1 - index))) != 0
}

/// Turns position `index` of a pattern of `positions` positions to ink.
pub fn set_bit_at(bitmap: &mut u128, positions: u32, index: u32)
    requires
        index < positions <= 128,
    ensures
        *final(bitmap) == with_bit(*old(bitmap), positions, index),
        forall|other: u32|
            bit_at(*final(bitmap), positions, other) == (other == index || bit_at(
                *old(bitmap),
                positions,
                other,
            )),
{
    let bit: u128 = 1u128 << (positions - 1 - index);
    *bitmap = *bitmap | bit;
    proof {
        assert forall|other: u32|
            bit_at(*bitmap, positions, other) == (other == index || bit_at(
                *old(bitmap),
                positions,
                other,
            )) by {
            lemma_with_bit(*old(bitmap), positions, index, other);
        }
    }
}

/// Hamming distance between two patterns of `positions` positions.
pub fn hamming_distance(a: u128, b: u128, positions: u32) -> (distance: u32)
    requires
        positions <= 128,
    ensures
        distance == hamming(a, b, positions),
        distance <= positions,
{
    proof {
        lemma_ones_xor(a, b, positions, 128);
        lemma_differing_bound(a, b, positions as nat);
    }
    ((a ^ b) & cell_bits(positions)).count_ones()
}

/// Reads position `index` of a pattern of 32 positions.
pub fn get_bit_at_index(bitmap: u32, index: u32) -> (ink: bool)
    requires
        index < 32,
    ensures
        ink == bit_at(bitmap as u128, 32, index),
{
    let place: u32 = 31 - index;
    assert(((bitmap & (1u32 << place)) != 0) == bit(bitmap as u128, place)) by (bit_vector)
        requires
            place < 32,
    ;
    (bitmap & (1u32 << place)) != 0
}

/// Turns position `index` of a pattern of 32 positions to ink.
pub fn set_bit_at_index(bitmap: &mut u32, index: u32)
    requires
        index < 32,
    ensures
        *final(bitmap) as u128 == with_bit(*old(bitmap) as u128, 32, index),
        forall|other: u32|
            #[trigger] bit_at(*final(bitmap) as u128, 32, other) == (other == index || bit_at(
                *old(bitmap) as u128,
                32,
                other,
            )),
{
    let place: u32 = 31 - index;
    let before: u32 = *bitmap;
    let bit: u32 = 1u32 << place;
    *bitmap = before | bit;
    proof {
        assert((before | (1u32 << place)) as u128 == with_place(before as u128, place))
            by (bit_vector)
            requires
                place < 32,
        ;
        assert forall|other: u32|
            #[trigger] bit_at(*bitmap as u128, 32, other) == (other == index || bit_at(
                before as u128,
                32,
                other,
            )) by {
            lemma_with_bit(before as u128, 32, index, other);
        }
    }
}

} // verus!
