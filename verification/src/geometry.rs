//! Sizes, in pixels or in character cells.

use vstd::prelude::*;

verus! {

/// A width and a height.
#[derive(Debug, Clone, Copy, PartialEq, Eq)]
pub struct Rectangle {
    pub width: u32,
    pub height: u32,
}

impl Rectangle {
    /// Number of positions the rectangle covers.
    pub open spec fn area(self) -> nat {
        (self.width * self.height) as nat
    }

    /// Whether the rectangle can be the pixel size of one character cell: it
    /// is not empty and a bit pattern has a position for each of its pixels.
    pub open spec fn is_cell(self) -> bool {
        self.width >= 1 && self.height >= 1 && self.area() <= 128
    }

    /// The rectangle with the width and the height of the pair, in this order.
    pub fn from_tuple(tup: (u32, u32)) -> (rect: Rectangle)
        ensures
            rect.width == tup.0,
            rect.height == tup.1,
    {
        Rectangle { width: tup.0, height: tup.1 }
    }

    /// The part of a terminal of `cols` columns and `rows` rows that a picture
    /// may fill: every column, and every row but the one the prompt takes.
    pub fn from_termsize(cols: u16, rows: u16) -> (rect: Rectangle)
        requires
            rows >= 1,
        ensures
            rect.width == cols,
            rect.height == rows - 1,
    {
        Rectangle { width: cols as u32, height: (rows - 1) as u32 }
    }

    /// Decides `is_cell`.
    pub fn fits_cell(&self) -> (fits: bool)
        ensures
            fits == self.is_cell(),
    {
        if self.width == 0 || self.height == 0 || self.width > 128 || self.height > 128 {
            proof {
                if self.width >= 1 && self.height >= 1 {
                    assert(self.width * self.height > 128) by (nonlinear_arith)
                        requires
                            self.width >= 1,
                            self.height >= 1,
                            self.width > 128 || self.height > 128,
                    ;
                }
            }
            false
        } else {
            assert(self.width * self.height <= 16384) by (nonlinear_arith)
                requires
                    self.width <= 128,
                    self.height <= 128,
            ;
            self.width * self.height <= 128
        }
    }

    /// Number of positions in the bit pattern of a cell of this size.
    pub fn positions(&self) -> (count: u32)
        requires
            self.is_cell(),
        ensures
            count == self.area(),
            1 <= count <= 128,
    {
        assert(self.width * self.height >= 1) by (nonlinear_arith)
            requires
                self.width >= 1,
                self.height >= 1,
        ;
        self.width * self.height
    }

    /// The size in pixels of `self.width` by `self.height` cells of size
    /// `cell`, or `None` where a side does not fit in 32 bits.
    pub fn in_pixels(&self, cell: &Rectangle) -> (extent: Option<Rectangle>)
        ensures
            match extent {
                Some(rect) => rect.width == self.width * cell.width && rect.height == self.height
                    * cell.height,
                None => self.width * cell.width > u32::MAX || self.height * cell.height > u32::MAX,
            },
    {
        match (self.width.checked_mul(cell.width), self.height.checked_mul(cell.height)) {
            (Some(width), Some(height)) => Some(Rectangle { width, height }),
            _ => None,
        }
    }
}

} // verus!
