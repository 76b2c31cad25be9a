//! From an image to the text of a terminal picture: one glyph and two
//! colours for each cell, the cells of a row side by side, one line a row.

use vstd::prelude::*;
use vstd::arithmetic::div_mod::{lemma_fundamental_div_mod, lemma_mod_pos_bound};
use crate::binarize::{threshold, threshold_mask};
use crate::colorize::{cell_colors, ink_and_paper, lemma_exact_fit_colors, split_colors};
use crate::geometry::Rectangle;
use crate::matcher::{best_fit, best_index, fitness, lemma_best_index, polarity_of, Polarity};
use crate::pixel::{lemma_cell_pixels, PixelBlock, Rgb, Rgba};

verus! {

/// What one cell shows: a character, drawn in the foreground colour on the
/// background colour, and the reading of the block it was matched in.
#[derive(Debug, Clone, Copy, PartialEq, Eq)]
pub struct MatchResult {
    pub character: char,
    pub polarity: Polarity,
    pub fg: Rgb,
    pub bg: Rgb,
}

/// The cell for a block of pixels: the glyph closest to the block's bit
/// pattern, in the colours of the two sets the pattern separates. Pattern,
/// distances and complement have one position for each pixel of the block.
pub open spec fn cell_of(pixels: Seq<Rgba>, catalog: Seq<(char, u128)>) -> MatchResult {
    let positions = pixels.len() as u32;
    let mask = threshold_mask(pixels);
    let entry = catalog[best_index(catalog, mask, positions)];
    let polarity = polarity_of(entry.1, mask, positions);
    let colors = cell_colors(pixels, mask, polarity);
    MatchResult { character: entry.0, polarity, fg: colors.0, bg: colors.1 }
}

/// Where some glyph of the catalog fits the pattern of a block exactly, in
/// either reading, the glyph shown fits it exactly too, and the block is
/// shown in the mean colour of the pixels under that glyph's ink, on the mean
/// colour of the others.
pub proof fn lemma_exact_cell(pixels: Seq<Rgba>, catalog: Seq<(char, u128)>, entry: int)
    requires
        pixels.len() <= 128,
        0 <= entry < catalog.len(),
        fitness(catalog[entry].1, threshold_mask(pixels), pixels.len() as u32) == 0,
    ensures
        ({
            let positions = pixels.len() as u32;
            let mask = threshold_mask(pixels);
            let shown = catalog[best_index(catalog, mask, positions)];
            let cell = cell_of(pixels, catalog);
            &&& fitness(shown.1, mask, positions) == 0
            &&& cell.character == shown.0
            &&& (cell.fg, cell.bg) == ink_and_paper(pixels, shown.1)
        }),
{
    let positions = pixels.len() as u32;
    let mask = threshold_mask(pixels);
    lemma_best_index(catalog, mask, positions);
    let shown = catalog[best_index(catalog, mask, positions)];
    assert(fitness(shown.1, mask, positions) <= fitness(catalog[entry].1, mask, positions));
    lemma_exact_fit_colors(pixels, shown.1, mask);
}

/// Approximates a block of the size of a cell by one glyph of the catalog
/// and two colours.
pub fn image_as_char(block: &PixelBlock, catalog: &[(char, u128)]) -> (cell: MatchResult)
    requires
        block.is_cell(),
        catalog@.len() > 0,
    ensures
        cell == cell_of(block.pixels@, catalog@),
{
    proof {
        lemma_cell_pixels(block);
    }
    let positions: u32 = block.pixels.len() as u32;
    let mask = threshold(block);
    let fit = best_fit(mask, catalog, positions);
    let (fg, bg) = split_colors(block, mask, fit.polarity);
    MatchResult { character: fit.character, polarity: fit.polarity, fg, bg }
}

/// The pixels of the tile at column `column` of row `row`, the image being
/// cut into tiles of the size of a cell from its top left corner.
pub open spec fn tile(image: &PixelBlock, cell: Rectangle, column: int, row: int) -> Seq<Rgba> {
    image.crop(column * cell.width, row * cell.height, cell.width as int, cell.height as int)
}

/// The cells of row `row` of the picture, from left to right: one for each
/// tile that lies wholly inside the image.
pub open spec fn row_of_cells(
    image: &PixelBlock,
    cell: Rectangle,
    catalog: Seq<(char, u128)>,
    row: int,
) -> Seq<MatchResult> {
    Seq::new(
        (image.width / cell.width) as nat,
        |column: int| cell_of(tile(image, cell, column, row), catalog),
    )
}

/// The rows of the picture, from top to bottom.
pub open spec fn grid_of_cells(
    image: &PixelBlock,
    cell: Rectangle,
    catalog: Seq<(char, u128)>,
) -> Seq<Seq<MatchResult>> {
    Seq::new(
        (image.height / cell.height) as nat,
        |row: int| row_of_cells(image, cell, catalog, row),
    )
}

/// Tile `index` of `count` tiles of side `side` lies inside a length that
/// holds `count` of them.
proof fn lemma_tile_inside(length: u32, side: u32, index: u32)
    requires
        side >= 1,
        index < length / side,
    ensures
        index * side + side <= length,
{
    let count = length as int / side as int;
    lemma_fundamental_div_mod(length as int, side as int);
    lemma_mod_pos_bound(length as int, side as int);
    assert(index * side + side <= length) by (nonlinear_arith)
        requires
            side >= 1,
            index + 1 <= count,
            side * count <= length,
    ;
}

/// The cells of one row of the picture.
pub fn image_as_row(
    image: &PixelBlock,
    cell: &Rectangle,
    catalog: &[(char, u128)],
    row: u32,
) -> (cells: Vec<MatchResult>)
    requires
        image.wf(),
        cell.is_cell(),
        catalog@.len() > 0,
        row < image.height / cell.height,
    ensures
        cells@ == row_of_cells(image, *cell, catalog@, row as int),
{
    let columns: u32 = image.width / cell.width;
    let mut cells: Vec<MatchResult> = Vec::new();
    let mut column: u32 = 0;
    proof {
        lemma_tile_inside(image.height, cell.height, row);
    }
    while column < columns
        invariant
            image.wf(),
            cell.is_cell(),
            catalog@.len() > 0,
            columns == image.width / cell.width,
            row * cell.height + cell.height <= image.height,
            column <= columns,
            cells@.len() == column,
            forall|k: int|
                0 <= k < column ==> #[trigger] cells@[k] == cell_of(
                    tile(image, *cell, k, row as int),
                    catalog@,
                ),
        decreases columns - column,
    {
        proof {
            lemma_tile_inside(image.width, cell.width, column);
        }
        let block = image.sub_block(
            column * cell.width,
            row * cell.height,
            cell.width,
            cell.height,
        );
        cells.push(image_as_char(&block, catalog));
        column = column + 1;
    }
    proof {
        assert(cells@ =~= row_of_cells(image, *cell, catalog@, row as int));
    }
    cells
}

/// The views of the rows.
pub open spec fn rows_view(rows: Seq<Vec<MatchResult>>) -> Seq<Seq<MatchResult>> {
    rows.map_values(|row: Vec<MatchResult>| row@)
}

/// Cuts the image into tiles of the size of a cell, row by row from the top
/// and from left to right, and approximates each by one cell. What is left
/// over at the right and at the bottom is not shown.
pub fn image_as_cells(image: &PixelBlock, cell: &Rectangle, catalog: &[(char, u128)]) -> (rows: Vec<
    Vec<MatchResult>,
>)
    requires
        image.wf(),
        cell.is_cell(),
        catalog@.len() > 0,
    ensures
        rows_view(rows@) == grid_of_cells(image, *cell, catalog@),
{
    let count: u32 = image.height / cell.height;
    let mut rows: Vec<Vec<MatchResult>> = Vec::new();
    let mut row: u32 = 0;
    while row < count
        invariant
            image.wf(),
            cell.is_cell(),
            catalog@.len() > 0,
            count == image.height / cell.height,
            row <= count,
            rows@.len() == row,
            forall|k: int|
                0 <= k < row ==> (#[trigger] rows@[k])@ == row_of_cells(
                    image,
                    *cell,
                    catalog@,
                    k,
                ),
        decreases count - row,
    {
        rows.push(image_as_row(image, cell, catalog, row));
        row = row + 1;
    }
    proof {
        assert(rows_view(rows@) =~= grid_of_cells(image, *cell, catalog@));
    }
    rows
}

} // verus!
