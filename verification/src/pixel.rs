//! Colours and rectangular grids of pixels.

use vstd::prelude::*;
use vstd::arithmetic::div_mod::lemma_fundamental_div_mod_converse;
use crate::geometry::Rectangle;

verus! {

/// A colour of three 8-bit channels.
#[derive(Debug, Clone, Copy, PartialEq, Eq)]
pub struct Rgb {
    pub r: u8,
    pub g: u8,
    pub b: u8,
}

/// A pixel: three colour channels and an opacity.
#[derive(Debug, Clone, Copy, PartialEq, Eq)]
pub struct Rgba {
    pub r: u8,
    pub g: u8,
    pub b: u8,
    pub a: u8,
}

impl Rgba {
    /// The value of colour channel `channel`: 0 is red, 1 is green, 2 is blue.
    pub open spec fn channel(self, channel: int) -> u8 {
        if channel == 0 {
            self.r
        } else if channel == 1 {
            self.g
        } else {
            self.b
        }
    }

    /// The pixel without its opacity.
    pub open spec fn rgb(self) -> Rgb {
        Rgb { r: self.r, g: self.g, b: self.b }
    }

    /// Reads colour channel `channel`.
    pub fn get_channel(&self, channel: usize) -> (value: u8)
        requires
            channel < 3,
        ensures
            value == self.channel(channel as int),
    {
        if channel == 0 {
            self.r
        } else if channel == 1 {
            self.g
        } else {
            self.b
        }
    }

    /// Drops the opacity.
    pub fn to_rgb(&self) -> (colour: Rgb)
        ensures
            colour == self.rgb(),
    {
        Rgb { r: self.r, g: self.g, b: self.b }
    }
}

/// A grid of pixels, stored row by row from the top.
#[derive(Debug, PartialEq, Eq)]
pub struct PixelBlock {
    pub width: u32,
    pub height: u32,
    pub pixels: Vec<Rgba>,
}

impl PixelBlock {
    /// There is one pixel for every position of the grid.
    pub open spec fn wf(&self) -> bool {
        self.pixels@.len() == self.width * self.height
    }

    /// The block is well formed and has the size of a character cell.
    pub open spec fn is_cell(&self) -> bool {
        self.wf() && self.size().is_cell()
    }

    /// Width and height of the grid.
    pub open spec fn size(&self) -> Rectangle {
        Rectangle { width: self.width, height: self.height }
    }

    /// Position of the pixel at column `x` of row `y` in a grid `width` wide.
    pub open spec fn index_of(width: u32, x: int, y: int) -> int {
        x + y * width
    }

    /// The pixel at column `x` of row `y`.
    pub open spec fn pixel_at(&self, x: int, y: int) -> Rgba {
        self.pixels@[Self::index_of(self.width, x, y)]
    }

    /// The grid of the given size over `pixels`, or `None` where their number
    /// is not that of its positions.
    pub fn new(width: u32, height: u32, pixels: Vec<Rgba>) -> (block: Option<PixelBlock>)
        ensures
            block is Some <==> pixels@.len() == width * height,
            block matches Some(b) ==> b.wf() && b.width == width && b.height == height
                && b.pixels@ == pixels@,
    {
        if pixels.len() as u64 == position_count(width, height) {
            Some(PixelBlock { width, height, pixels })
        } else {
            None
        }
    }

    /// The pixels, row by row, of the part `width` wide and `height` high
    /// whose top left corner is at column `x` of row `y`.
    pub open spec fn crop(&self, x: int, y: int, width: int, height: int) -> Seq<Rgba> {
        Seq::new((width * height) as nat, |k: int| self.pixel_at(x + k % width, y + k / width))
    }

    /// Reads the pixel at column `x` of row `y`.
    pub fn get_pixel(&self, x: u32, y: u32) -> (pixel: Rgba)
        requires
            self.wf(),
            x < self.width,
            y < self.height,
        ensures
            pixel == self.pixel_at(x as int, y as int),
    {
        proof {
            lemma_index_in_range(self.width, self.height, x as int, y as int);
            assert(self.pixels@.len() == self.pixels.len());
        }
        let index: usize = (y as usize) * (self.width as usize) + (x as usize);
        self.pixels[index]
    }

    /// Copies out the part `width` wide and `height` high whose top left
    /// corner is at column `x` of row `y`.
    pub fn sub_block(&self, x: u32, y: u32, width: u32, height: u32) -> (part: PixelBlock)
        requires
            self.wf(),
            x + width <= self.width,
            y + height <= self.height,
        ensures
            part.wf(),
            part.width == width,
            part.height == height,
            part.pixels@ == self.crop(x as int, y as int, width as int, height as int),
    {
        let mut pixels: Vec<Rgba> = Vec::new();
        let mut row: u32 = 0;
        while row < height
            invariant
                self.wf(),
                x + width <= self.width,
                y + height <= self.height,
                row <= height,
                pixels@.len() == row * width,
                forall|k: int|
                    0 <= k < pixels@.len() ==> pixels@[k] == self.pixel_at(
                        x + k % (width as int),
                        y + k / (width as int),
                    ),
            decreases height - row,
        {
            let mut column: u32 = 0;
            while column < width
                invariant
                    self.wf(),
                    x + width <= self.width,
                    y + height <= self.height,
                    row < height,
                    column <= width,
                    pixels@.len() == row * width + column,
                    forall|k: int|
                        0 <= k < pixels@.len() ==> pixels@[k] == self.pixel_at(
                            x + k % (width as int),
                            y + k / (width as int),
                        ),
                decreases width - column,
            {
                let pixel = self.get_pixel(x + column, y + row);
                proof {
                    lemma_fundamental_div_mod_converse(
                        row * width + column,
                        width as int,
                        row as int,
                        column as int,
                    );
                }
                pixels.push(pixel);
                column = column + 1;
            }
            proof {
                assert((row + 1) * width == row * width + width) by (nonlinear_arith);
            }
            row = row + 1;
        }
        proof {
            assert(height * width == width * height) by (nonlinear_arith);
            assert(pixels@ =~= self.crop(x as int, y as int, width as int, height as int));
        }
        PixelBlock { width, height, pixels }
    }

    /// Decides `wf`.
    pub fn is_well_formed(&self) -> (ok: bool)
        ensures
            ok == self.wf(),
    {
        self.pixels.len() as u64 == position_count(self.width, self.height)
    }
}

/// A block of the size of a cell has between one and 128 pixels.
pub proof fn lemma_cell_pixels(block: &PixelBlock)
    requires
        block.is_cell(),
    ensures
        1 <= block.pixels@.len() <= 128,
        block.pixels@.len() == block.size().area(),
        block.width <= 128,
        block.height <= 128,
{
    assert(block.width * block.height >= 1 && block.width * block.height >= block.width
        && block.width * block.height >= block.height) by (nonlinear_arith)
        requires
            block.width >= 1,
            block.height >= 1,
    ;
}

/// Number of positions of a grid of the given size.
pub fn position_count(width: u32, height: u32) -> (count: u64)
    ensures
        count == width * height,
{
    assert(width * height <= 0xffff_ffff * 0xffff_ffff) by (nonlinear_arith)
        requires
            width <= 0xffff_ffff,
            height <= 0xffff_ffff,
    ;
    (width as u64) * (height as u64)
}

/// A position inside a well-formed grid is a position of its pixels.
pub proof fn lemma_index_in_range(width: u32, height: u32, x: int, y: int)
    requires
        0 <= x < width,
        0 <= y < height,
    ensures
        0 <= y * width,
        0 <= PixelBlock::index_of(width, x, y) < width * height,
{
    assert(0 <= y * width && x + y * width < width * height) by (nonlinear_arith)
        requires
            0 <= x < width,
            0 <= y < height,
    ;
}

} // verus!
