//! The catalog of glyphs: candidate characters, each with the bit pattern of
//! its ink, built from the coverage rasters of a font or from a fixed table.

use vstd::prelude::*;
use crate::bitmask::{bit_at, in_cell, lemma_bits, lemma_with_bit, low_bits, set_bit_at, with_bit};
use crate::geometry::Rectangle;

verus! {

/// Whether `code` is a Unicode scalar value.
pub open spec fn is_scalar_value(code: u32) -> bool {
    code <= 0xD7FF || 0xE000 <= code <= 0x10FFFF
}

/// `char::from_u32` of std: the character of a code point that is a Unicode
/// scalar value, and `None` for any other number.
pub assume_specification[ char::from_u32 ](i: u32) -> (r: Option<char>)
    ensures
        r == if is_scalar_value(i) {
            Some(i as char)
        } else {
            None::<char>
        },
;

/// The characters of the code points from `first` up to, not including, `end`.
pub open spec fn range_chars(first: u32, end: u32) -> Seq<char> {
    Seq::new((end - first) as nat, |i: int| ((first + i) as u32) as char)
}

/// The candidate characters: printable ASCII, mathematical operators, box
/// drawing, block elements, geometric shapes and miscellaneous symbols, each
/// block without its last code point.
pub open spec fn candidate_chars() -> Seq<char> {
    range_chars(0x0021, 0x007E) + range_chars(0x2200, 0x22FF) + range_chars(0x2500, 0x257F)
        + range_chars(0x2580, 0x259F) + range_chars(0x25A0, 0x25FF) + range_chars(
        0x2660,
        0x26FF,
    )
}

/// The code point of candidate `k`.
pub open spec fn candidate_code(k: int) -> int {
    if k < 93 {
        0x0021 + k
    } else if k < 348 {
        0x2200 + (k - 93)
    } else if k < 475 {
        0x2500 + (k - 348)
    } else if k < 506 {
        0x2580 + (k - 475)
    } else if k < 601 {
        0x25A0 + (k - 506)
    } else {
        0x2660 + (k - 601)
    }
}

/// There are 760 candidates, in the order of their code points, so that no
/// character is a candidate twice.
pub proof fn lemma_candidates_ascending(i: int, j: int)
    requires
        0 <= i < j < 760,
    ensures
        candidate_chars().len() == 760,
        candidate_chars()[i] as int == candidate_code(i),
        candidate_chars()[j] as int == candidate_code(j),
        candidate_code(i) < candidate_code(j),
        candidate_chars()[i] != candidate_chars()[j],
{
    let ascii = range_chars(0x0021, 0x007E);
    let operators = ascii + range_chars(0x2200, 0x22FF);
    let boxes = operators + range_chars(0x2500, 0x257F);
    let blocks = boxes + range_chars(0x2580, 0x259F);
    let shapes = blocks + range_chars(0x25A0, 0x25FF);
    let all = shapes + range_chars(0x2660, 0x26FF);
    assert(all == candidate_chars());
    assert(all[i] as int == candidate_code(i));
    assert(all[j] as int == candidate_code(j));
}

/// Appends the characters of the code points from `first` up to `end`.
fn extend_with_range(all: &mut Vec<char>, first: u32, end: u32)
    requires
        first <= end <= 0xD800,
    ensures
        final(all)@ == old(all)@ + range_chars(first, end),
{
    let mut code: u32 = first;
    while code < end
        invariant
            first <= code <= end <= 0xD800,
            all@ == old(all)@ + range_chars(first, code),
        decreases end - code,
    {
        let character = char::from_u32(code).unwrap();
        all.push(character);
        proof {
            assert(range_chars(first, code).push(character) =~= range_chars(
                first,
                (code + 1) as u32,
            ));
        }
        code = code + 1;
    }
}

/// The candidate characters, in the order of their code points.
pub fn all_unicode() -> (all: Vec<char>)
    ensures
        all@ == candidate_chars(),
        all@.len() == 760,
{
    let mut all: Vec<char> = Vec::new();
    extend_with_range(&mut all, 0x0021, 0x007E);
    extend_with_range(&mut all, 0x2200, 0x22FF);
    extend_with_range(&mut all, 0x2500, 0x257F);
    extend_with_range(&mut all, 0x2580, 0x259F);
    extend_with_range(&mut all, 0x25A0, 0x25FF);
    extend_with_range(&mut all, 0x2660, 0x26FF);
    all
}

/// One sample of a glyph's raster: a pixel, by its column and row counted
/// from the top left corner of the raster, and how much of it the glyph
/// covers, as the bit pattern of a single-precision number.
#[derive(Debug, Clone, Copy, PartialEq, Eq)]
pub struct CoverageSample {
    pub x: u32,
    pub y: u32,
    pub coverage: u32,
}

/// What a font gives for one character at one size: the samples of its
/// raster and where the raster's top left corner lies, relative to the
/// glyph's origin on the baseline.
#[derive(Debug, PartialEq, Eq)]
pub struct GlyphRaster {
    pub x_offset: i32,
    pub y_offset: i32,
    pub samples: Vec<CoverageSample>,
}

/// What a font gave when it was asked for the candidate characters.
#[derive(Debug, PartialEq, Eq)]
pub enum FontRasters {
    /// The data could not be read as a font; the text says why.
    Malformed(String),
    /// The font was read: for each candidate character, in their order, its
    /// raster, or nothing where the font has no glyph for it.
    Glyphs(Vec<Option<GlyphRaster>>),
}

/// Why no catalog was built.
#[derive(Debug, PartialEq, Eq)]
pub enum CatalogError {
    /// The font data is malformed; the text says why.
    FontParse(String),
    /// The font has no glyph for this character.
    MissingGlyph(char),
}

/// Whether the bit pattern is that of a number above zero: the sign is clear
/// and the number is neither zero nor a NaN.
pub open spec fn positive_coverage(coverage: u32) -> bool {
    0 < coverage <= 0x7F80_0000
}

impl GlyphRaster {
    /// Column of the cell that a sample falls in. The raster's horizontal
    /// origin is the left edge of the cell.
    pub open spec fn column(&self, sample: CoverageSample) -> int {
        sample.x + self.x_offset
    }

    /// Row of the cell that a sample falls in. The baseline is the last row
    /// of the cell.
    pub open spec fn row(&self, sample: CoverageSample, cell: Rectangle) -> int {
        sample.y + (cell.height - 1) + self.y_offset
    }

    /// Whether a sample puts ink into the cell: it is covered, and it does
    /// not fall into the margin around the cell.
    pub open spec fn inks(&self, sample: CoverageSample, cell: Rectangle) -> bool {
        &&& positive_coverage(sample.coverage)
        &&& 0 <= self.column(sample) < cell.width
        &&& 0 <= self.row(sample, cell) < cell.height
    }

    /// Position in the bit pattern of a sample that falls into the cell.
    pub open spec fn position(&self, sample: CoverageSample, cell: Rectangle) -> int {
        self.column(sample) + self.row(sample, cell) * cell.width
    }

    /// The pattern that the first `n` samples leave in the cell.
    pub open spec fn bitmap_below(&self, cell: Rectangle, n: nat) -> u128
        decreases n,
    {
        if n == 0 {
            0
        } else {
            let rest = self.bitmap_below(cell, (n - 1) as nat);
            let sample = self.samples@[n - 1];
            if self.inks(sample, cell) {
                with_bit(rest, cell.area() as u32, self.position(sample, cell) as u32)
            } else {
                rest
            }
        }
    }

    /// The bit pattern of the glyph in a cell, of one position for each pixel
    /// of the cell: ink wherever a sample puts it.
    pub open spec fn bitmap(&self, cell: Rectangle) -> u128 {
        self.bitmap_below(cell, self.samples@.len())
    }

    /// A position is ink exactly where one of the samples puts ink on it, and
    /// the pattern has no bit outside the cell.
    pub proof fn lemma_bitmap_bits(&self, cell: Rectangle, n: nat, index: u32)
        requires
            cell.is_cell(),
            n <= self.samples@.len(),
        ensures
            bit_at(self.bitmap_below(cell, n), cell.area() as u32, index) == exists|k: int|
                0 <= k < n && self.inks(#[trigger] self.samples@[k], cell) && self.position(
                    self.samples@[k],
                    cell,
                ) == index,
            in_cell(self.bitmap_below(cell, n), cell.area() as u32) == self.bitmap_below(cell, n),
        decreases n,
    {
        let positions = cell.area() as u32;
        if n == 0 {
            if index < positions {
                lemma_bits(0, 0, positions, (positions - 1 - index) as u32);
            }
            let field = low_bits(positions);
            assert(0u128 & field == 0) by (bit_vector);
        } else {
            self.lemma_bitmap_bits(cell, (n - 1) as nat, index);
            let rest = self.bitmap_below(cell, (n - 1) as nat);
            let sample = self.samples@[n - 1];
            if self.inks(sample, cell) {
                lemma_position_in_cell(cell, self.column(sample), self.row(sample, cell));
                lemma_with_bit(rest, positions, self.position(sample, cell) as u32, index);
            }
            if bit_at(self.bitmap_below(cell, n), positions, index) {
                if self.inks(sample, cell) && self.position(sample, cell) == index {
                    assert(self.inks(self.samples@[n - 1], cell));
                } else {
                    let k = choose|k: int|
                        0 <= k < n - 1 && self.inks(#[trigger] self.samples@[k], cell)
                            && self.position(self.samples@[k], cell) == index;
                    assert(self.inks(self.samples@[k], cell));
                }
            }
        }
    }
}

/// A column and a row inside a cell give a position of its bit pattern.
pub proof fn lemma_position_in_cell(cell: Rectangle, column: int, row: int)
    requires
        cell.is_cell(),
        0 <= column < cell.width,
        0 <= row < cell.height,
    ensures
        0 <= row * cell.width,
        0 <= column + row * cell.width < cell.area() <= 128,
{
    assert(0 <= row * cell.width && column + row * cell.width < cell.width * cell.height)
        by (nonlinear_arith)
        requires
            0 <= column < cell.width,
            0 <= row < cell.height,
    ;
}

/// Decides `positive_coverage`.
pub fn is_covered(coverage: u32) -> (covered: bool)
    ensures
        covered == positive_coverage(coverage),
{
    0 < coverage && coverage <= 0x7F80_0000
}

/// Maps the raster of a glyph into the bit pattern of a cell.
pub fn char_to_bitmap(raster: &GlyphRaster, cell: &Rectangle) -> (bitmap: u128)
    requires
        cell.is_cell(),
    ensures
        bitmap == raster.bitmap(*cell),
        in_cell(bitmap, cell.area() as u32) == bitmap,
        forall|index: u32|
            #[trigger] bit_at(bitmap, cell.area() as u32, index) == exists|k: int|
                0 <= k < raster.samples@.len() && raster.inks(
                    #[trigger] raster.samples@[k],
                    *cell,
                ) && raster.position(raster.samples@[k], *cell) == index,
{
    let positions = cell.positions();
    let mut bitmap: u128 = 0;
    let x_starts: i64 = raster.x_offset as i64;
    let y_starts: i64 = raster.y_offset as i64 + (cell.height as i64 - 1);
    let mut i: usize = 0;
    while i < raster.samples.len()
        invariant
            cell.is_cell(),
            positions == cell.area(),
            x_starts == raster.x_offset,
            y_starts == raster.y_offset + (cell.height - 1),
            i <= raster.samples@.len(),
            bitmap == raster.bitmap_below(*cell, i as nat),
        decreases raster.samples@.len() - i,
    {
        let sample = raster.samples[i];
        let column: i64 = sample.x as i64 + x_starts;
        let row: i64 = sample.y as i64 + y_starts;
        if is_covered(sample.coverage) && 0 <= column && column < cell.width as i64 && 0 <= row
            && row < cell.height as i64 {
            proof {
                lemma_position_in_cell(*cell, column as int, row as int);
            }
            let index: i64 = column + row * cell.width as i64;
            set_bit_at(&mut bitmap, positions, index as u32);
        }
        i = i + 1;
    }
    proof {
        raster.lemma_bitmap_bits(*cell, raster.samples@.len(), 0);
        assert forall|index: u32|
            #[trigger] bit_at(bitmap, positions, index) == exists|k: int|
                0 <= k < raster.samples@.len() && raster.inks(
                    #[trigger] raster.samples@[k],
                    *cell,
                ) && raster.position(raster.samples@[k], *cell) == index by {
            raster.lemma_bitmap_bits(*cell, raster.samples@.len(), index);
        }
    }
    bitmap
}

/// Whether the font has a glyph for every one of the first `n` characters.
pub open spec fn all_present(rasters: Seq<Option<GlyphRaster>>, n: int) -> bool {
    forall|k: int| 0 <= k < n ==> (#[trigger] rasters[k]) is Some
}

/// Character `k` stops the catalog: it is the first one without a glyph.
pub open spec fn first_missing(rasters: Seq<Option<GlyphRaster>>, k: int) -> bool {
    0 <= k < rasters.len() && all_present(rasters, k) && rasters[k] is None
}

/// What the rasters of some characters give: one entry for each character,
/// in the same order, with the bit pattern of its glyph in the cell; or, if
/// a glyph is missing, the first character without one and no catalog.
pub open spec fn catalog_of(
    chars: Seq<char>,
    rasters: Seq<Option<GlyphRaster>>,
    cell: Rectangle,
    built: Result<Vec<(char, u128)>, CatalogError>,
) -> bool {
    &&& built is Ok <==> all_present(rasters, rasters.len() as int)
    &&& built matches Ok(catalog) ==> catalog@.len() == chars.len() && forall|k: int|
        0 <= k < chars.len() ==> #[trigger] catalog@[k] == (
            chars[k],
            rasters[k]->Some_0.bitmap(cell),
        )
    &&& built matches Err(error) ==> exists|k: int|
        #[trigger] first_missing(rasters, k) && error == CatalogError::MissingGlyph(chars[k])
}

/// Maps the raster of every character into the bit pattern of a cell.
/// `rasters` holds, for each of `chars` in their order, what the font gave.
pub fn bitmaps_of(chars: &[char], rasters: &[Option<GlyphRaster>], cell: &Rectangle) -> (built:
    Result<Vec<(char, u128)>, CatalogError>)
    requires
        cell.is_cell(),
        chars@.len() == rasters@.len(),
    ensures
        catalog_of(chars@, rasters@, *cell, built),
{
    let mut catalog: Vec<(char, u128)> = Vec::new();
    let mut i: usize = 0;
    while i < rasters.len()
        invariant
            cell.is_cell(),
            chars@.len() == rasters@.len(),
            i <= rasters@.len(),
            all_present(rasters@, i as int),
            catalog@.len() == i,
            forall|k: int|
                0 <= k < i ==> #[trigger] catalog@[k] == (
                    chars@[k],
                    rasters@[k]->Some_0.bitmap(*cell),
                ),
        decreases rasters@.len() - i,
    {
        match &rasters[i] {
            Some(raster) => {
                catalog.push((chars[i], char_to_bitmap(raster, cell)));
            },
            None => {
                assert(first_missing(rasters@, i as int));
                return Err(CatalogError::MissingGlyph(chars[i]));
            },
        }
        i = i + 1;
    }
    Ok(catalog)
}

/// Builds the catalog of a font from what the font gave for the candidate
/// characters: one entry for each candidate, in their order. A font that
/// could not be read gives no catalog, nor does one that lacks a glyph for a
/// candidate.
pub fn all_chars_and_bitmaps(font: &FontRasters, cell: &Rectangle) -> (built: Result<
    Vec<(char, u128)>,
    CatalogError,
>)
    requires
        cell.is_cell(),
        font matches FontRasters::Glyphs(rasters) ==> rasters@.len() == candidate_chars().len(),
    ensures
        font matches FontRasters::Malformed(why) ==> built == Err::<
            Vec<(char, u128)>,
            CatalogError,
        >(CatalogError::FontParse(*why)),
        font matches FontRasters::Glyphs(rasters) ==> catalog_of(
            candidate_chars(),
            rasters@,
            *cell,
            built,
        ),
{
    match font {
        FontRasters::Malformed(why) => Err(CatalogError::FontParse(why.clone())),
        FontRasters::Glyphs(rasters) => {
            let chars = all_unicode();
            bitmaps_of(chars.as_slice(), rasters.as_slice(), cell)
        },
    }
}

/// The fixed table for cells 4 pixels wide and 8 high: block elements whose
/// ink is exact on that grid. Lower blocks from one to eight eighths, left
/// blocks of one, two and three quarters, and quadrants.
pub open spec fn block_element_table() -> Seq<(char, u128)> {
    seq![
        ('\u{2581}', 0x0000_000fu128),
        ('\u{2582}', 0x0000_00ffu128),
        ('\u{2583}', 0x0000_0fffu128),
        ('\u{2584}', 0x0000_ffffu128),
        ('\u{2585}', 0x000f_ffffu128),
        ('\u{2586}', 0x00ff_ffffu128),
        ('\u{2587}', 0x0fff_ffffu128),
        ('\u{2588}', 0xffff_ffffu128),
        ('\u{258e}', 0x8888_8888u128),
        ('\u{258c}', 0xcccc_ccccu128),
        ('\u{258a}', 0xeeee_eeeeu128),
        ('\u{2596}', 0x0000_ccccu128),
        ('\u{2597}', 0x0000_3333u128),
        ('\u{2598}', 0xcccc_0000u128),
        ('\u{259d}', 0x3333_0000u128),
        ('\u{259a}', 0xcccc_3333u128),
    ]
}

/// The catalog of the fixed table, which needs no font.
pub fn block_elements() -> (catalog: Vec<(char, u128)>)
    ensures
        catalog@ == block_element_table(),
{
    let catalog: Vec<(char, u128)> = vec![
        ('\u{2581}', 0x0000_000fu128),
        ('\u{2582}', 0x0000_00ffu128),
        ('\u{2583}', 0x0000_0fffu128),
        ('\u{2584}', 0x0000_ffffu128),
        ('\u{2585}', 0x000f_ffffu128),
        ('\u{2586}', 0x00ff_ffffu128),
        ('\u{2587}', 0x0fff_ffffu128),
        ('\u{2588}', 0xffff_ffffu128),
        ('\u{258e}', 0x8888_8888u128),
        ('\u{258c}', 0xcccc_ccccu128),
        ('\u{258a}', 0xeeee_eeeeu128),
        ('\u{2596}', 0x0000_ccccu128),
        ('\u{2597}', 0x0000_3333u128),
        ('\u{2598}', 0xcccc_0000u128),
        ('\u{259d}', 0x3333_0000u128),
        ('\u{259a}', 0xcccc_3333u128),
    ];
    proof {
        assert(catalog@ =~= block_element_table());
    }
    catalog
}

} // verus!
