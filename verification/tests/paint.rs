use spyglass::geometry::Rectangle;
use spyglass::glyphs::block_elements;
use spyglass::matcher::Polarity;
use spyglass::paint::{cells_as_text, image_as_text, join_lines};
use spyglass::pixel::{PixelBlock, Rgb, Rgba};
use spyglass::render::MatchResult;

const WHITE: Rgba = Rgba { r: 255, g: 255, b: 255, a: 255 };
const BLACK: Rgba = Rgba { r: 0, g: 0, b: 0, a: 255 };
const CELL: Rectangle = Rectangle { width: 4, height: 8 };

fn cell(character: char, fg: (u8, u8, u8), bg: (u8, u8, u8)) -> MatchResult {
    MatchResult {
        character,
        polarity: Polarity::Direct,
        fg: Rgb { r: fg.0, g: fg.1, b: fg.2 },
        bg: Rgb { r: bg.0, g: bg.1, b: bg.2 },
    }
}

#[test]
fn test_join_lines() {
    assert_eq!(join_lines(&vec![]), "");
    assert_eq!(join_lines(&vec![String::from("ab")]), "ab\n");
    assert_eq!(
        join_lines(&vec![String::from("ab"), String::new(), String::from("c")]),
        "ab\n\nc\n"
    );
}

#[test]
fn test_one_cell_as_text() {
    let rows = vec![vec![cell('x', (1, 2, 3), (40, 50, 60))]];
    assert_eq!(cells_as_text(&rows), "\x1b[48;2;40;50;60;38;2;1;2;3mx\x1b[0m\n");
}

#[test]
fn test_cells_of_a_row_share_what_does_not_change() {
    let rows = vec![vec![
        cell('a', (1, 2, 3), (4, 5, 6)),
        cell('b', (1, 2, 3), (4, 5, 6)),
        cell('c', (7, 8, 9), (4, 5, 6)),
        cell('d', (7, 8, 9), (0, 0, 0)),
        cell('e', (1, 1, 1), (2, 2, 2)),
    ]];
    assert_eq!(
        cells_as_text(&rows),
        "\x1b[48;2;4;5;6;38;2;1;2;3mab\x1b[38;2;7;8;9mc\x1b[48;2;0;0;0md\
         \x1b[48;2;2;2;2;38;2;1;1;1me\x1b[0m\n"
    );
}

#[test]
fn test_polarity_leaves_the_text_alone() {
    let direct = cell('q', (9, 9, 9), (1, 1, 1));
    let inverted = MatchResult { polarity: Polarity::Inverted, ..direct };
    assert_eq!(cells_as_text(&vec![vec![direct]]), cells_as_text(&vec![vec![inverted]]));
}

#[test]
fn test_every_row_starts_afresh() {
    let rows = vec![
        vec![cell('a', (1, 2, 3), (4, 5, 6))],
        vec![],
        vec![cell('b', (1, 2, 3), (4, 5, 6))],
    ];
    assert_eq!(
        cells_as_text(&rows),
        "\x1b[48;2;4;5;6;38;2;1;2;3ma\x1b[0m\n\n\x1b[48;2;4;5;6;38;2;1;2;3mb\x1b[0m\n"
    );
    assert_eq!(cells_as_text(&vec![]), "");
}

#[test]
fn test_image_as_text() {
    let mut pixels = Vec::new();
    for y in 0..16 {
        for _x in 0..8 {
            pixels.push(if y % 8 < 4 { BLACK } else { WHITE });
        }
    }
    let picture = PixelBlock::new(8, 16, pixels).unwrap();
    let line = "\x1b[48;2;0;0;0;38;2;255;255;255m\u{2584}\u{2584}\x1b[0m\n";
    assert_eq!(image_as_text(&picture, &CELL, &block_elements()), format!("{}{}", line, line));
}

#[test]
fn test_image_without_cells_as_text() {
    let picture = PixelBlock::new(3, 7, vec![WHITE; 21]).unwrap();
    assert_eq!(image_as_text(&picture, &CELL, &block_elements()), "");
    let flat = PixelBlock::new(3, 9, vec![WHITE; 27]).unwrap();
    assert_eq!(image_as_text(&flat, &CELL, &block_elements()), "\n");
}
