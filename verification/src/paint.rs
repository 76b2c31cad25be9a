//! The text of a picture: every row of cells as one line of characters and
//! terminal escape sequences.

use vstd::prelude::*;
use vstd::string::StringExecFns;
use crate::geometry::Rectangle;
use crate::pixel::PixelBlock;
use crate::render::{grid_of_cells, image_as_cells, rows_view, MatchResult};

verus! {

/// The text that `ansi_term` gives for a row of cells: the characters of the
/// cells, each in its foreground colour on its background colour, with the
/// escape sequences that switch from the colours of one cell to those of the
/// next and reset them after the last.
pub uninterp spec fn ansi_row(cells: Seq<MatchResult>) -> Seq<char>;

/// Paints each cell's character with `Colour::RGB(..).on(Colour::RGB(..))` of
/// `ansi_term` and formats the row with `ANSIStrings`. The text depends on
/// the characters and colours of the cells alone.
#[verifier::external_body]
fn paint_row(cells: &Vec<MatchResult>) -> (text: String)
    ensures
        text@ == ansi_row(cells@),
{
    let styled: Vec<ansi_term::ANSIString<'static>> = cells
        .iter()
        .map(|cell| {
            ansi_term::Colour::RGB(cell.fg.r, cell.fg.g, cell.fg.b)
                .on(ansi_term::Colour::RGB(cell.bg.r, cell.bg.g, cell.bg.b))
                .paint(cell.character.to_string())
        })
        .collect();
    ansi_term::ANSIStrings(&styled).to_string()
}

/// The lines one after the other, each ended by a line break.
pub open spec fn lines_of(lines: Seq<Seq<char>>) -> Seq<char>
    decreases lines.len(),
{
    if lines.len() == 0 {
        Seq::empty()
    } else {
        lines_of(lines.drop_last()) + lines.last() + seq!['\n']
    }
}

/// The text of a picture: the rows of cells as lines.
pub open spec fn text_of(rows: Seq<Seq<MatchResult>>) -> Seq<char> {
    lines_of(rows.map_values(|row: Seq<MatchResult>| ansi_row(row)))
}

/// The views of the lines.
pub open spec fn lines_view(lines: Seq<String>) -> Seq<Seq<char>> {
    lines.map_values(|line: String| line@)
}

/// Joins lines into one text, ending each by a line break.
pub fn join_lines(lines: &Vec<String>) -> (text: String)
    ensures
        text@ == lines_of(lines_view(lines@)),
{
    let mut text = String::new();
    let mut i: usize = 0;
    while i < lines.len()
        invariant
            i <= lines@.len(),
            text@ == lines_of(lines_view(lines@).take(i as int)),
        decreases lines@.len() - i,
    {
        proof {
            reveal_strlit("\n");
            let next = lines_view(lines@).take(i + 1);
            assert(next.drop_last() =~= lines_view(lines@).take(i as int));
            assert(next.last() == lines@[i as int]@);
            assert("\n"@ =~= seq!['\n']);
        }
        text.append(lines[i].as_str());
        text.append("\n");
        i = i + 1;
    }
    proof {
        assert(lines_view(lines@).take(i as int) =~= lines_view(lines@));
    }
    text
}

/// The text of a picture given by its rows of cells.
pub fn cells_as_text(rows: &Vec<Vec<MatchResult>>) -> (text: String)
    ensures
        text@ == text_of(rows_view(rows@)),
{
    let mut lines: Vec<String> = Vec::new();
    let mut i: usize = 0;
    while i < rows.len()
        invariant
            i <= rows@.len(),
            lines@.len() == i,
            forall|k: int| 0 <= k < i ==> (#[trigger] lines@[k])@ == ansi_row(rows@[k]@),
        decreases rows@.len() - i,
    {
        lines.push(paint_row(&rows[i]));
        i = i + 1;
    }
    proof {
        assert(lines_view(lines@) =~= rows_view(rows@).map_values(
            |row: Seq<MatchResult>| ansi_row(row),
        ));
    }
    join_lines(&lines)
}

/// Renders an image as text: one character for each tile of the size of a
/// cell, one line for each row of tiles.
pub fn image_as_text(image: &PixelBlock, cell: &Rectangle, catalog: &[(char, u128)]) -> (text:
    String)
    requires
        image.wf(),
        cell.is_cell(),
        catalog@.len() > 0,
    ensures
        text@ == text_of(grid_of_cells(image, *cell, catalog@)),
{
    let rows = image_as_cells(image, cell, catalog);
    cells_as_text(&rows)
}

} // verus!
