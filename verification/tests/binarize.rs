use spyglass::binarize::{
    max_by_channel, min_by_channel, select_channel, split_point, threshold,
};
use spyglass::pixel::{PixelBlock, Rgba};

const WHITE: Rgba = Rgba { r: 255, g: 255, b: 255, a: 255 };
const BLACK: Rgba = Rgba { r: 0, g: 0, b: 0, a: 255 };
const MAGENTA: Rgba = Rgba { r: 255, g: 0, b: 255, a: 255 };

fn cell(pixels: Vec<Rgba>) -> PixelBlock {
    PixelBlock::new(4, 8, pixels).unwrap()
}

#[test]
fn test_min_and_max_by_channel() {
    let mut pixels = vec![Rgba { r: 10, g: 200, b: 30, a: 0 }; 32];
    pixels[5] = Rgba { r: 3, g: 250, b: 30, a: 9 };
    pixels[31] = Rgba { r: 77, g: 100, b: 30, a: 1 };
    let block = cell(pixels);
    assert_eq!((min_by_channel(&block, 0), max_by_channel(&block, 0)), (3, 77));
    assert_eq!((min_by_channel(&block, 1), max_by_channel(&block, 1)), (100, 250));
    assert_eq!((min_by_channel(&block, 2), max_by_channel(&block, 2)), (30, 30));
    assert_eq!(select_channel(&block), (1, 100, 250));
}

#[test]
fn test_split_point_rounds_down() {
    assert_eq!(split_point(0, 255), 127);
    assert_eq!(split_point(10, 13), 11);
    assert_eq!(split_point(0, 1), 0);
    assert_eq!(split_point(200, 200), 200);
    assert_eq!(split_point(255, 255), 255);
    assert_eq!(split_point(254, 255), 254);
}

#[test]
fn test_white_block_with_one_magenta_pixel() {
    let mut pixels = vec![WHITE; 32];
    pixels[0] = MAGENTA;
    let block = cell(pixels);
    // Only green varies: from 0 to 255, so the threshold is 127.
    assert_eq!(select_channel(&block), (1, 0, 255));
    assert_eq!(split_point(0, 255), 127);
    assert_eq!(threshold(&block), 0x8000_0000);
}

#[test]
fn test_flat_block_has_no_ink() {
    assert_eq!(select_channel(&cell(vec![WHITE; 32])), (0, 255, 255));
    assert_eq!(threshold(&cell(vec![WHITE; 32])), 0);
    assert_eq!(threshold(&cell(vec![BLACK; 32])), 0);
    assert_eq!(threshold(&cell(vec![MAGENTA; 32])), 0);
    let single = PixelBlock::new(1, 1, vec![Rgba { r: 9, g: 8, b: 7, a: 6 }]).unwrap();
    assert_eq!(threshold(&single), 0);
    let large = PixelBlock::new(8, 16, vec![MAGENTA; 128]).unwrap();
    assert_eq!(threshold(&large), 0);
}

#[test]
fn test_equal_spreads_take_the_lowest_channel() {
    // Red and blue both span 100; green spans less. Red decides.
    let mut pixels = vec![Rgba { r: 100, g: 50, b: 0, a: 255 }; 32];
    pixels[3] = Rgba { r: 0, g: 60, b: 100, a: 255 };
    let block = cell(pixels);
    assert_eq!(select_channel(&block), (0, 0, 100));
    // Threshold 50: only the pixel whose red is 0 lies below it.
    assert_eq!(threshold(&block), 0x1000_0000);
    // Green and blue tie ahead of red: green decides.
    let mut pixels = vec![Rgba { r: 5, g: 0, b: 40, a: 255 }; 32];
    pixels[31] = Rgba { r: 6, g: 40, b: 0, a: 255 };
    let block = cell(pixels);
    assert_eq!(select_channel(&block), (1, 0, 40));
    assert_eq!(threshold(&block), 0xffff_fffe);
}

#[test]
fn test_threshold_is_strict_and_rounds_down() {
    // Values 10 and 13: the threshold is 10 + 3 / 2 = 11.
    let mut pixels = vec![Rgba { r: 13, g: 0, b: 0, a: 255 }; 32];
    pixels[0] = Rgba { r: 10, g: 0, b: 0, a: 255 };
    pixels[1] = Rgba { r: 11, g: 0, b: 0, a: 255 };
    pixels[2] = Rgba { r: 12, g: 0, b: 0, a: 255 };
    assert_eq!(threshold(&cell(pixels)), 0x8000_0000);
    // Values 0 and 1: the threshold is 0 and nothing lies below it.
    let mut pixels = vec![Rgba { r: 1, g: 0, b: 0, a: 255 }; 32];
    pixels[7] = Rgba { r: 0, g: 0, b: 0, a: 255 };
    assert_eq!(threshold(&cell(pixels)), 0);
}

#[test]
fn test_black_over_white_is_ink_in_the_upper_half() {
    let mut pixels = vec![BLACK; 16];
    pixels.extend(vec![WHITE; 16]);
    assert_eq!(threshold(&cell(pixels)), 0xffff_0000);
}

#[test]
fn test_threshold_of_a_small_block() {
    // Four positions: the first is the most significant of four bits.
    let block = PixelBlock::new(2, 2, vec![BLACK, WHITE, WHITE, BLACK]).unwrap();
    assert_eq!(threshold(&block), 0b1001);
    let mut pixels = vec![BLACK; 8];
    pixels.extend(vec![WHITE; 8]);
    assert_eq!(threshold(&PixelBlock::new(4, 4, pixels).unwrap()), 0xff00);
}

#[test]
fn test_threshold_of_a_block_of_128_pixels() {
    let mut pixels = vec![WHITE; 64];
    pixels.extend(vec![BLACK; 64]);
    let block = PixelBlock::new(8, 16, pixels).unwrap();
    assert_eq!(threshold(&block), 0x0000_0000_0000_0000_ffff_ffff_ffff_ffff);
    let mut pixels = vec![WHITE; 128];
    pixels[0] = MAGENTA;
    pixels[127] = MAGENTA;
    let block = PixelBlock::new(8, 16, pixels).unwrap();
    assert_eq!(select_channel(&block), (1, 0, 255));
    assert_eq!(threshold(&block), (1 << 127) | 1);
}

#[test]
fn test_red_and_blue_tie_goes_to_red() {
    // Red is high on the upper rows, blue on the right columns.
    let mut pixels = Vec::new();
    for y in 0..16 {
        for x in 0..8 {
            pixels.push(Rgba {
                r: if y < 8 { 255 } else { 0 },
                g: 0,
                b: if x < 4 { 0 } else { 255 },
                a: 255,
            });
        }
    }
    let block = PixelBlock::new(8, 16, pixels).unwrap();
    assert_eq!(select_channel(&block), (0, 0, 255));
    assert_eq!(threshold(&block), 0x0000_0000_0000_0000_ffff_ffff_ffff_ffff);
}

#[test]
fn test_pixels_at_the_threshold_are_not_ink() {
    let mut pixels = Vec::new();
    for y in 0..16 {
        for x in 0..8 {
            let v = if y < 8 { 127 } else if x < 4 { 0 } else { 255 };
            pixels.push(Rgba { r: v, g: v, b: v, a: 255 });
        }
    }
    let block = PixelBlock::new(8, 16, pixels).unwrap();
    assert_eq!(select_channel(&block), (0, 0, 255));
    assert_eq!(split_point(0, 255), 127);
    assert_eq!(threshold(&block), 0x0000_0000_0000_0000_f0f0_f0f0_f0f0_f0f0);
}
