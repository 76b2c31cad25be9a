//! Reduction of a block of pixels to a bit pattern by a threshold that adapts
//! to the block.

use vstd::prelude::*;
use crate::bitmask::{
    bit_at, in_cell, lemma_bits, lemma_with_bit, low_bits, set_bit_at, with_bit,
};
use crate::pixel::{lemma_cell_pixels, PixelBlock, Rgba};

verus! {

/// Least value of a colour channel over the pixels (255 where there is none).
pub open spec fn channel_min(pixels: Seq<Rgba>, channel: int) -> u8
    decreases pixels.len(),
{
    if pixels.len() == 0 {
        255
    } else {
        let rest = channel_min(pixels.drop_last(), channel);
        let last = pixels.last().channel(channel);
        if last < rest {
            last
        } else {
            rest
        }
    }
}

/// Greatest value of a colour channel over the pixels (0 where there is none).
pub open spec fn channel_max(pixels: Seq<Rgba>, channel: int) -> u8
    decreases pixels.len(),
{
    if pixels.len() == 0 {
        0
    } else {
        let rest = channel_max(pixels.drop_last(), channel);
        let last = pixels.last().channel(channel);
        if last > rest {
            last
        } else {
            rest
        }
    }
}

/// Distance between the greatest and the least value of a channel.
pub open spec fn spread(pixels: Seq<Rgba>, channel: int) -> int {
    channel_max(pixels, channel) - channel_min(pixels, channel)
}

/// The channel of largest spread; among equals, the one of lowest index.
pub open spec fn widest_channel(pixels: Seq<Rgba>) -> int {
    if spread(pixels, 0) >= spread(pixels, 1) && spread(pixels, 0) >= spread(pixels, 2) {
        0
    } else if spread(pixels, 1) >= spread(pixels, 2) {
        1
    } else {
        2
    }
}

/// The threshold: the midpoint, rounded down, between the least and the
/// greatest value of the widest channel.
pub open spec fn split_value(pixels: Seq<Rgba>) -> int {
    let channel = widest_channel(pixels);
    channel_min(pixels, channel) + spread(pixels, channel) / 2
}

/// Whether the pixel at position `index` lies strictly below the threshold on
/// the widest channel.
pub open spec fn is_dark(pixels: Seq<Rgba>, index: int) -> bool {
    0 <= index < pixels.len() && pixels[index].channel(widest_channel(pixels)) < split_value(
        pixels,
    )
}

/// The pattern, of one position for each pixel, whose ink positions are the
/// dark pixels among the first `n`.
pub open spec fn mask_below(pixels: Seq<Rgba>, n: nat) -> u128
    decreases n,
{
    if n == 0 {
        0
    } else {
        let rest = mask_below(pixels, (n - 1) as nat);
        if is_dark(pixels, n - 1) {
            with_bit(rest, pixels.len() as u32, (n - 1) as u32)
        } else {
            rest
        }
    }
}

/// The bit pattern of a block: one position for each pixel, ink at the
/// position of every dark pixel.
pub open spec fn threshold_mask(pixels: Seq<Rgba>) -> u128 {
    mask_below(pixels, pixels.len())
}

/// The least and the greatest value bound every pixel and are attained.
pub proof fn lemma_channel_bounds(pixels: Seq<Rgba>, channel: int)
    requires
        pixels.len() > 0,
    ensures
        forall|i: int|
            0 <= i < pixels.len() ==> channel_min(pixels, channel) <= (
            #[trigger] pixels[i]).channel(channel) <= channel_max(pixels, channel),
        exists|i: int|
            0 <= i < pixels.len() && (#[trigger] pixels[i]).channel(channel) == channel_min(
                pixels,
                channel,
            ),
        exists|i: int|
            0 <= i < pixels.len() && (#[trigger] pixels[i]).channel(channel) == channel_max(
                pixels,
                channel,
            ),
    decreases pixels.len(),
{
    let rest = pixels.drop_last();
    let last = pixels.len() - 1;
    if rest.len() == 0 {
        assert(pixels[last].channel(channel) == channel_min(pixels, channel));
        assert(pixels[last].channel(channel) == channel_max(pixels, channel));
    } else {
        lemma_channel_bounds(rest, channel);
        assert forall|i: int| 0 <= i < pixels.len() implies channel_min(pixels, channel) <= (
        #[trigger] pixels[i]).channel(channel) <= channel_max(pixels, channel) by {
            if i < last {
                assert(rest[i] == pixels[i]);
            }
        }
        if pixels[last].channel(channel) < channel_min(rest, channel) {
            assert(pixels[last].channel(channel) == channel_min(pixels, channel));
        } else {
            let i = choose|i: int|
                0 <= i < rest.len() && (#[trigger] rest[i]).channel(channel) == channel_min(
                    rest,
                    channel,
                );
            assert(pixels[i].channel(channel) == channel_min(pixels, channel));
        }
        if pixels[last].channel(channel) > channel_max(rest, channel) {
            assert(pixels[last].channel(channel) == channel_max(pixels, channel));
        } else {
            let i = choose|i: int|
                0 <= i < rest.len() && (#[trigger] rest[i]).channel(channel) == channel_max(
                    rest,
                    channel,
                );
            assert(pixels[i].channel(channel) == channel_max(pixels, channel));
        }
    }
}

/// The ink positions of the pattern are exactly the dark pixels, and the
/// pattern has no bit outside the cell.
pub proof fn lemma_mask_bits(pixels: Seq<Rgba>, n: nat, index: u32)
    requires
        n <= pixels.len() <= 128,
    ensures
        bit_at(mask_below(pixels, n), pixels.len() as u32, index) == (index < n && is_dark(
            pixels,
            index as int,
        )),
        in_cell(mask_below(pixels, n), pixels.len() as u32) == mask_below(pixels, n),
    decreases n,
{
    let positions = pixels.len() as u32;
    if n == 0 {
        if index < positions {
            lemma_bits(0, 0, positions, (positions - 1 - index) as u32);
        }
        let field = low_bits(positions);
        assert(0u128 & field == 0) by (bit_vector);
    } else {
        lemma_mask_bits(pixels, (n - 1) as nat, index);
        if is_dark(pixels, n - 1) {
            lemma_with_bit(mask_below(pixels, (n - 1) as nat), positions, (n - 1) as u32, index);
        }
    }
}

/// A block whose pixels all agree on every channel has no ink at all.
pub proof fn lemma_flat_block_is_blank(pixels: Seq<Rgba>)
    requires
        0 < pixels.len(),
        forall|channel: int| 0 <= channel < 3 ==> spread(pixels, channel) == 0,
    ensures
        widest_channel(pixels) == 0,
        threshold_mask(pixels) == 0,
{
    lemma_channel_bounds(pixels, 0);
    lemma_no_dark_pixel(pixels, pixels.len());
}

proof fn lemma_no_dark_pixel(pixels: Seq<Rgba>, n: nat)
    requires
        forall|i: int| 0 <= i < n ==> !is_dark(pixels, i),
    ensures
        mask_below(pixels, n) == 0,
    decreases n,
{
    if n > 0 {
        lemma_no_dark_pixel(pixels, (n - 1) as nat);
    }
}

/// Least value of colour channel `channel` over the block.
pub fn min_by_channel(block: &PixelBlock, channel: usize) -> (least: u8)
    requires
        channel < 3,
        block.pixels@.len() > 0,
    ensures
        least == channel_min(block.pixels@, channel as int),
{
    let mut least: u8 = 255;
    let mut i: usize = 0;
    while i < block.pixels.len()
        invariant
            channel < 3,
            i <= block.pixels@.len(),
            least == channel_min(block.pixels@.take(i as int), channel as int),
        decreases block.pixels@.len() - i,
    {
        let value = block.pixels[i].get_channel(channel);
        proof {
            let next = block.pixels@.take(i + 1);
            assert(next.drop_last() =~= block.pixels@.take(i as int));
        }
        if value < least {
            least = value;
        }
        i = i + 1;
    }
    proof {
        assert(block.pixels@.take(i as int) =~= block.pixels@);
    }
    least
}

/// Greatest value of colour channel `channel` over the block.
pub fn max_by_channel(block: &PixelBlock, channel: usize) -> (greatest: u8)
    requires
        channel < 3,
        block.pixels@.len() > 0,
    ensures
        greatest == channel_max(block.pixels@, channel as int),
{
    let mut greatest: u8 = 0;
    let mut i: usize = 0;
    while i < block.pixels.len()
        invariant
            channel < 3,
            i <= block.pixels@.len(),
            greatest == channel_max(block.pixels@.take(i as int), channel as int),
        decreases block.pixels@.len() - i,
    {
        let value = block.pixels[i].get_channel(channel);
        proof {
            let next = block.pixels@.take(i + 1);
            assert(next.drop_last() =~= block.pixels@.take(i as int));
        }
        if value > greatest {
            greatest = value;
        }
        i = i + 1;
    }
    proof {
        assert(block.pixels@.take(i as int) =~= block.pixels@);
    }
    greatest
}

/// The channel the threshold is taken on, with its least and greatest value.
pub fn select_channel(block: &PixelBlock) -> (choice: (usize, u8, u8))
    requires
        block.pixels@.len() > 0,
    ensures
        choice.0 == widest_channel(block.pixels@),
        choice.1 == channel_min(block.pixels@, choice.0 as int),
        choice.2 == channel_max(block.pixels@, choice.0 as int),
        choice.1 <= choice.2,
{
    proof {
        lemma_channel_bounds(block.pixels@, 0);
        lemma_channel_bounds(block.pixels@, 1);
        lemma_channel_bounds(block.pixels@, 2);
    }
    let mut best: (usize, u8, u8) = (0, min_by_channel(block, 0), max_by_channel(block, 0));
    let green: (u8, u8) = (min_by_channel(block, 1), max_by_channel(block, 1));
    if green.1 - green.0 > best.2 - best.1 {
        best = (1, green.0, green.1);
    }
    let blue: (u8, u8) = (min_by_channel(block, 2), max_by_channel(block, 2));
    if blue.1 - blue.0 > best.2 - best.1 {
        best = (2, blue.0, blue.1);
    }
    best
}

/// The midpoint, rounded down, between the least and the greatest value.
pub fn split_point(least: u8, greatest: u8) -> (split: u8)
    requires
        least <= greatest,
    ensures
        split == least + (greatest - least) / 2,
{
    least + (greatest - least) / 2
}

/// Reduces a block of the size of a cell to its bit pattern, of one position
/// for each pixel: the pixel at column `x` of row `y` is ink at position
/// `x + y * width` when it lies strictly below the threshold on the widest
/// channel.
pub fn threshold(block: &PixelBlock) -> (mask: u128)
    requires
        block.is_cell(),
    ensures
        mask == threshold_mask(block.pixels@),
        in_cell(mask, block.pixels@.len() as u32) == mask,
        forall|index: u32|
            bit_at(mask, block.pixels@.len() as u32, index) == is_dark(
                block.pixels@,
                index as int,
            ),
{
    proof {
        lemma_cell_pixels(block);
    }
    let (channel, least, greatest) = select_channel(block);
    let split = split_point(least, greatest);
    let positions: u32 = block.pixels.len() as u32;
    let mut mask: u128 = 0;
    let mut i: usize = 0;
    while i < block.pixels.len()
        invariant
            block.pixels@.len() <= 128,
            positions == block.pixels@.len(),
            channel == widest_channel(block.pixels@),
            split == split_value(block.pixels@),
            i <= block.pixels@.len(),
            mask == mask_below(block.pixels@, i as nat),
        decreases block.pixels@.len() - i,
    {
        if block.pixels[i].get_channel(channel) < split {
            set_bit_at(&mut mask, positions, i as u32);
        }
        i = i + 1;
    }
    proof {
        lemma_mask_bits(block.pixels@, block.pixels@.len(), 0);
        assert forall|index: u32|
            bit_at(mask, positions, index) == is_dark(block.pixels@, index as int) by {
            lemma_mask_bits(block.pixels@, block.pixels@.len(), index);
        }
    }
    mask
}

} // verus!
