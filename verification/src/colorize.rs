//! The two colours of a cell: the means of the two sets of pixels that a bit
//! pattern separates.

use vstd::prelude::*;
use crate::bitmask::{
    bit_at, complement, get_bit_at, hamming, in_cell, lemma_bits, lemma_hamming_complement,
    lemma_hamming_zero, low_bits,
};
use crate::matcher::{fitness, lemma_fitness_zero, polarity_of, Polarity};
use crate::pixel::{PixelBlock, Rgb, Rgba};

verus! {

/// Sum of a colour channel over the pixels.
pub open spec fn channel_sum(pixels: Seq<Rgba>, channel: int) -> nat
    decreases pixels.len(),
{
    if pixels.len() == 0 {
        0
    } else {
        channel_sum(pixels.drop_last(), channel) + pixels.last().channel(channel) as nat
    }
}

/// Black, the colour of a set without pixels.
pub open spec fn black() -> Rgb {
    Rgb { r: 0, g: 0, b: 0 }
}

/// The arithmetic mean of the pixels, channel by channel and rounded down;
/// black where there are none.
pub open spec fn mean_rgb(pixels: Seq<Rgba>) -> Rgb {
    if pixels.len() == 0 {
        black()
    } else {
        Rgb {
            r: (channel_sum(pixels, 0) / pixels.len()) as u8,
            g: (channel_sum(pixels, 1) / pixels.len()) as u8,
            b: (channel_sum(pixels, 2) / pixels.len()) as u8,
        }
    }
}

/// The first `n` pixels, in order, at whose position the pattern `bitmap`, of
/// one position for each pixel, is ink (`ink` true) or is not (`ink` false).
pub open spec fn partition_below(pixels: Seq<Rgba>, bitmap: u128, ink: bool, n: nat) -> Seq<Rgba>
    decreases n,
{
    if n == 0 {
        Seq::empty()
    } else {
        let rest = partition_below(pixels, bitmap, ink, (n - 1) as nat);
        if bit_at(bitmap, pixels.len() as u32, (n - 1) as u32) == ink {
            rest.push(pixels[n - 1])
        } else {
            rest
        }
    }
}

/// One side of a block under a pattern: the pixels, in order, at whose
/// position `bitmap` is ink (`ink` true) or is not (`ink` false).
pub open spec fn partition(pixels: Seq<Rgba>, bitmap: u128, ink: bool) -> Seq<Rgba> {
    partition_below(pixels, bitmap, ink, pixels.len())
}

/// Foreground and background of a block under a pattern: the means of the
/// pixels at its ink positions and of the others.
pub open spec fn ink_and_paper(pixels: Seq<Rgba>, bitmap: u128) -> (Rgb, Rgb) {
    (mean_rgb(partition(pixels, bitmap, true)), mean_rgb(partition(pixels, bitmap, false)))
}

/// Foreground and background of a block whose pattern `mask` was matched in
/// the reading `polarity`: the foreground is the mean of the set that the
/// glyph's ink stands for.
pub open spec fn cell_colors(pixels: Seq<Rgba>, mask: u128, polarity: Polarity) -> (Rgb, Rgb) {
    match polarity {
        Polarity::Direct => ink_and_paper(pixels, mask),
        Polarity::Inverted => (ink_and_paper(pixels, mask).1, ink_and_paper(pixels, mask).0),
    }
}

/// A channel sums to at most 255 for each pixel.
pub proof fn lemma_channel_sum_bound(pixels: Seq<Rgba>, channel: int)
    ensures
        channel_sum(pixels, channel) <= 255 * pixels.len(),
    decreases pixels.len(),
{
    if pixels.len() > 0 {
        lemma_channel_sum_bound(pixels.drop_last(), channel);
    }
}

proof fn lemma_blank_side(pixels: Seq<Rgba>, bitmap: u128, ink: bool, n: nat)
    requires
        n <= pixels.len(),
        forall|index: u32|
            index < n ==> #[trigger] bit_at(bitmap, pixels.len() as u32, index) != ink,
    ensures
        partition_below(pixels, bitmap, ink, n).len() == 0,
        partition_below(pixels, bitmap, !ink, n) == pixels.take(n as int),
    decreases n,
{
    if n > 0 {
        lemma_blank_side(pixels, bitmap, ink, (n - 1) as nat);
        assert(bit_at(bitmap, pixels.len() as u32, (n - 1) as u32) != ink);
        assert(pixels.take(n - 1).push(pixels[n - 1]) =~= pixels.take(n as int));
    } else {
        assert(pixels.take(0) =~= Seq::<Rgba>::empty());
    }
}

/// Degenerate partition: under the pattern without ink no pixel is
/// foreground, under the pattern that is all ink none is background, and the
/// colour of the empty side is black.
pub proof fn lemma_degenerate_partition(pixels: Seq<Rgba>)
    requires
        pixels.len() <= 128,
    ensures
        partition(pixels, 0, true).len() == 0,
        partition(pixels, 0, false) == pixels,
        partition(pixels, low_bits(pixels.len() as u32), false).len() == 0,
        partition(pixels, low_bits(pixels.len() as u32), true) == pixels,
        ink_and_paper(pixels, 0) == (black(), mean_rgb(pixels)),
        ink_and_paper(pixels, low_bits(pixels.len() as u32)) == (mean_rgb(pixels), black()),
{
    let positions = pixels.len() as u32;
    assert forall|index: u32| index < positions implies !#[trigger] bit_at(
        0,
        positions,
        index,
    ) by {
        lemma_bits(0, 0, positions, (positions - 1 - index) as u32);
    }
    assert forall|index: u32| index < positions implies #[trigger] bit_at(
        low_bits(positions),
        positions,
        index,
    ) by {
        lemma_bits(0, 0, positions, (positions - 1 - index) as u32);
    }
    lemma_blank_side(pixels, 0, true, pixels.len());
    lemma_blank_side(pixels, low_bits(positions), false, pixels.len());
    assert(pixels.take(pixels.len() as int) =~= pixels);
}

proof fn lemma_partition_same(pixels: Seq<Rgba>, a: u128, b: u128, flip: bool, ink: bool, n: nat)
    requires
        n <= pixels.len(),
        forall|index: u32|
            index < n ==> #[trigger] bit_at(a, pixels.len() as u32, index) == (bit_at(
                b,
                pixels.len() as u32,
                index,
            ) != flip),
    ensures
        partition_below(pixels, a, ink, n) == partition_below(pixels, b, ink != flip, n),
    decreases n,
{
    if n > 0 {
        lemma_partition_same(pixels, a, b, flip, ink, (n - 1) as nat);
        let index = (n - 1) as u32;
        assert(bit_at(a, pixels.len() as u32, index) == (bit_at(b, pixels.len() as u32, index)
            != flip));
    }
}

/// The complement of a pattern separates the same two sets, the other way
/// round.
pub proof fn lemma_partition_complement(pixels: Seq<Rgba>, bitmap: u128, ink: bool)
    requires
        pixels.len() <= 128,
    ensures
        partition(pixels, complement(bitmap, pixels.len() as u32), ink) == partition(
            pixels,
            bitmap,
            !ink,
        ),
{
    let positions = pixels.len() as u32;
    assert forall|index: u32| index < positions implies #[trigger] bit_at(
        complement(bitmap, positions),
        positions,
        index,
    ) == !bit_at(bitmap, positions, index) by {
        lemma_bits(bitmap, 0, positions, (positions - 1 - index) as u32);
    }
    lemma_partition_same(pixels, complement(bitmap, positions), bitmap, true, ink, pixels.len());
}

/// Only what the cell holds of a pattern separates the pixels.
pub proof fn lemma_partition_in_cell(pixels: Seq<Rgba>, a: u128, b: u128, ink: bool)
    requires
        pixels.len() <= 128,
        in_cell(a, pixels.len() as u32) == in_cell(b, pixels.len() as u32),
    ensures
        partition(pixels, a, ink) == partition(pixels, b, ink),
{
    let positions = pixels.len() as u32;
    assert forall|index: u32| index < positions implies #[trigger] bit_at(
        a,
        positions,
        index,
    ) == bit_at(b, positions, index) by {
        lemma_bits(a, 0, positions, (positions - 1 - index) as u32);
        lemma_bits(b, 0, positions, (positions - 1 - index) as u32);
    }
    lemma_partition_same(pixels, a, b, false, ink, pixels.len());
}

/// Where a glyph fits the pattern of a block exactly, in either reading, the
/// foreground of the cell is the mean of the pixels under the glyph's ink and
/// the background the mean of the others.
pub proof fn lemma_exact_fit_colors(pixels: Seq<Rgba>, glyph: u128, mask: u128)
    requires
        pixels.len() <= 128,
        fitness(glyph, mask, pixels.len() as u32) == 0,
    ensures
        cell_colors(pixels, mask, polarity_of(glyph, mask, pixels.len() as u32)) == ink_and_paper(
            pixels,
            glyph,
        ),
{
    let positions = pixels.len() as u32;
    lemma_fitness_zero(glyph, mask, positions);
    lemma_hamming_zero(glyph, mask, positions);
    lemma_hamming_complement(glyph, mask, positions);
    if hamming(glyph, mask, positions) == 0 {
        lemma_partition_in_cell(pixels, glyph, mask, true);
        lemma_partition_in_cell(pixels, glyph, mask, false);
    } else {
        let inverted = complement(mask, positions);
        lemma_hamming_zero(glyph, inverted, positions);
        lemma_partition_in_cell(pixels, glyph, inverted, true);
        lemma_partition_in_cell(pixels, glyph, inverted, false);
        lemma_partition_complement(pixels, mask, true);
        lemma_partition_complement(pixels, mask, false);
    }
}

/// Mean colour of the pixels, channel by channel; black where there are none.
pub fn average_rgb(pxs: &[Rgba]) -> (colour: Rgb)
    ensures
        colour == mean_rgb(pxs@),
{
    let n = pxs.len();
    let mut red: u128 = 0;
    let mut green: u128 = 0;
    let mut blue: u128 = 0;
    let mut i: usize = 0;
    while i < n
        invariant
            n == pxs@.len(),
            i <= n,
            red == channel_sum(pxs@.take(i as int), 0),
            green == channel_sum(pxs@.take(i as int), 1),
            blue == channel_sum(pxs@.take(i as int), 2),
        decreases n - i,
    {
        proof {
            assert(pxs@.take(i + 1).drop_last() =~= pxs@.take(i as int));
            lemma_channel_sum_bound(pxs@.take(i as int), 0);
            lemma_channel_sum_bound(pxs@.take(i as int), 1);
            lemma_channel_sum_bound(pxs@.take(i as int), 2);
        }
        let rgb = pxs[i].to_rgb();
        red = red + rgb.r as u128;
        green = green + rgb.g as u128;
        blue = blue + rgb.b as u128;
        i = i + 1;
    }
    proof {
        assert(pxs@.take(n as int) =~= pxs@);
        lemma_channel_sum_bound(pxs@, 0);
        lemma_channel_sum_bound(pxs@, 1);
        lemma_channel_sum_bound(pxs@, 2);
    }
    if n == 0 {
        Rgb { r: 0, g: 0, b: 0 }
    } else {
        let count = n as u128;
        proof {
            assert(red / count <= 255 && green / count <= 255 && blue / count <= 255)
                by (nonlinear_arith)
                requires
                    count > 0,
                    red <= 255 * count,
                    green <= 255 * count,
                    blue <= 255 * count,
            ;
        }
        Rgb { r: (red / count) as u8, g: (green / count) as u8, b: (blue / count) as u8 }
    }
}

/// Colours of a block under a pattern of one position for each pixel: the
/// foreground is the mean of the pixels at the ink positions of `bitmap`, the
/// background that of the others.
pub fn approximate_image_with_bitmap(block: &PixelBlock, bitmap: u128) -> (colors: (Rgb, Rgb))
    requires
        block.pixels@.len() <= 128,
    ensures
        colors == ink_and_paper(block.pixels@, bitmap),
{
    let positions: u32 = block.pixels.len() as u32;
    let mut fg: Vec<Rgba> = Vec::new();
    let mut bg: Vec<Rgba> = Vec::new();
    let mut i: usize = 0;
    while i < block.pixels.len()
        invariant
            block.pixels@.len() <= 128,
            positions == block.pixels@.len(),
            i <= block.pixels@.len(),
            fg@ == partition_below(block.pixels@, bitmap, true, i as nat),
            bg@ == partition_below(block.pixels@, bitmap, false, i as nat),
        decreases block.pixels@.len() - i,
    {
        if get_bit_at(bitmap, positions, i as u32) {
            fg.push(block.pixels[i]);
        } else {
            bg.push(block.pixels[i]);
        }
        i = i + 1;
    }
    let fg_color = average_rgb(fg.as_slice());
    let bg_color = average_rgb(bg.as_slice());
    (fg_color, bg_color)
}

/// Colours of a block whose pattern `mask` was matched in the reading
/// `polarity`.
pub fn split_colors(block: &PixelBlock, mask: u128, polarity: Polarity) -> (colors: (Rgb, Rgb))
    requires
        block.pixels@.len() <= 128,
    ensures
        colors == cell_colors(block.pixels@, mask, polarity),
{
    let (ink, paper) = approximate_image_with_bitmap(block, mask);
    match polarity {
        Polarity::Direct => (ink, paper),
        Polarity::Inverted => (paper, ink),
    }
}

} // verus!
